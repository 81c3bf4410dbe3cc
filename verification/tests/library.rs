use medulla::commands::commit::{self, snapshot, sort_by_id};
use medulla::commands::embed::{chunk_ranges, entries_to_embed};
use medulla::commands::init::{agents_addition, gitignore_additions};
use medulla::commands::learn::{derive_id, normalize_tags, prepare_entry, LearnError};
use medulla::commands::query::{
    contains_string, found_stems, ids_of, linked_synapses, matches_row, matching_rows,
    memory_row, needs_recompile, reinforce_lines, related_memories, search, stem_query, LineOut,
    LogLine,
};
use medulla::commands::run::{listed_stems, literal_search};
use medulla::commands::think::{
    aggregate_signals, brain_rows, build_canonical_entries, co_activations, stem_all,
    synapse_signals,
};
use medulla::memory::{clone_strings, latest_by_id, MemoryEntry};
use medulla::rank::rank_by_activation;
use medulla::text::{
    append_chars, chars_of, contains_str, is_blank, join_strings, split_str, str_lt, trim_chars,
    trim_str,
};

fn strings(xs: &[&str]) -> Vec<String> {
    xs.iter().map(|x| x.to_string()).collect()
}

fn row(id: &str, content: &str, timestamp: i64, stems: &[&str]) -> MemoryEntry {
    MemoryEntry {
        id: id.to_string(),
        content: content.to_string(),
        timestamp,
        tags: strings(stems),
        associations: strings(stems),
        source: None,
        access_count: 0,
        last_access: timestamp,
    }
}

// ------------------------------------------------------------------ text

#[test]
fn trim_removes_unicode_white_space_at_both_ends() {
    assert_eq!(trim_str("  hi there \t\n"), "hi there");
    assert_eq!(trim_str("\u{3000}hi\u{00A0}"), "hi");
    assert_eq!(trim_str(""), "");
    assert_eq!(trim_str(" \n "), "");
    let v: Vec<char> = " ab ".chars().collect();
    assert_eq!(trim_chars(&v), vec!['a', 'b']);
}

#[test]
fn blank_means_only_white_space() {
    assert!(is_blank(""));
    assert!(is_blank(" \t\n"));
    assert!(!is_blank(" a "));
}

#[test]
fn split_keeps_empty_pieces() {
    assert_eq!(split_str("a,b,,c", ','), strings(&["a", "b", "", "c"]));
    assert_eq!(split_str("", ','), strings(&[""]));
    assert_eq!(split_str("abc", ','), strings(&["abc"]));
    assert_eq!(split_str(",", ','), strings(&["", ""]));
}

#[test]
fn contains_finds_substrings() {
    assert!(contains_str("hello world", "o w"));
    assert!(contains_str("abc", ""));
    assert!(!contains_str("ab", "abc"));
    assert!(!contains_str("hello", "hola"));
}

#[test]
fn string_order_is_code_point_order() {
    assert!(str_lt("abc", "abd"));
    assert!(str_lt("ab", "abc"));
    assert!(!str_lt("abc", "abc"));
    assert!(!str_lt("b", "abc"));
    assert!(str_lt("Z", "a"));
    assert!(str_lt("", "a"));
    assert!(!str_lt("a", ""));
}

#[test]
fn join_and_append() {
    assert_eq!(join_strings(&strings(&["a", "b", "c"]), ", "), "a, b, c");
    assert_eq!(join_strings(&strings(&["solo"]), ", "), "solo");
    assert_eq!(join_strings(&vec![], ", "), "");
    let mut v = chars_of("ab");
    append_chars(&mut v, &chars_of("cd"));
    assert_eq!(v, vec!['a', 'b', 'c', 'd']);
}

// ------------------------------------------------------------------ memory

#[test]
fn latest_version_wins_and_later_line_wins_a_tie() {
    let log = vec![
        row("a", "a1", 1, &[]),
        row("b", "b5", 5, &[]),
        row("a", "a3", 3, &[]),
        row("a", "a3-again", 3, &[]),
        row("a", "a2", 2, &[]),
    ];
    let out = latest_by_id(&log);
    assert_eq!(out.len(), 2);
    let a = out.iter().find(|e| e.id == "a").unwrap();
    let b = out.iter().find(|e| e.id == "b").unwrap();
    assert_eq!(a.content, "a3-again");
    assert_eq!(b.content, "b5");
}

#[test]
fn shown_tags_fall_back_to_stems() {
    let mut e = row("x", "c", 1, &["robot"]);
    e.tags = vec![];
    assert_eq!(e.display_tags(), strings(&["robot"]));
    let mut f = row("y", "c", 1, &["robot"]);
    f.tags = strings(&["Robotics"]);
    assert_eq!(f.display_tags(), strings(&["Robotics"]));
    assert_eq!(clone_strings(&f.tags), f.tags);
    let d = f.duplicate();
    assert_eq!((d.id, d.content, d.tags), (f.id, f.content, f.tags));
}

// ------------------------------------------------------------------ ranking

#[test]
fn ranking_is_newest_first_with_ties_in_stored_order() {
    let rows = vec![row("0", "", 5, &[]), row("1", "", 7, &[]), row("2", "", 5, &[]), row("3", "", 9, &[])];
    assert_eq!(rank_by_activation(&rows, &vec![0, 1, 2, 3], 10), vec![3, 1, 0, 2]);
    assert_eq!(rank_by_activation(&rows, &vec![2, 0], 10), vec![0, 2]);
    assert_eq!(rank_by_activation(&rows, &vec![], 10), Vec::<usize>::new());
}

#[test]
fn frequently_accessed_memories_are_boosted() {
    // ln(4) - 0.5 ln(11) > 0 - 0.5 ln(2): four uses outweigh nine seconds of age.
    let mut used = row("used", "", 0, &[]);
    used.access_count = 3;
    let fresh = row("fresh", "", 9_000, &[]);
    assert_eq!(rank_by_activation(&vec![fresh.clone(), used.clone()], &vec![0, 1], 10_000), vec![1, 0]);
    // With one access only, ln(2) - 0.5 ln(11) < -0.5 ln(2): the fresh one still leads.
    used.access_count = 1;
    assert_eq!(rank_by_activation(&vec![fresh.clone(), used], &vec![0, 1], 10_000), vec![0, 1]);
    // A row dated after the cache was built counts as the newest possible.
    let future = row("future", "", 20_000, &[]);
    assert_eq!(rank_by_activation(&vec![fresh, future], &vec![0, 1], 10_000), vec![1, 0]);
}

#[test]
fn extreme_ages_are_still_ordered() {
    let oldest = row("oldest", "", i64::MIN, &[]);
    let older = row("older", "", i64::MIN + 1, &[]);
    assert_eq!(rank_by_activation(&vec![oldest.clone(), older.clone()], &vec![0, 1], i64::MAX), vec![1, 0]);
    let mut busy = oldest;
    busy.access_count = u32::MAX;
    assert_eq!(rank_by_activation(&vec![busy, older], &vec![0, 1], i64::MAX), vec![0, 1]);
}

// ------------------------------------------------------------------ learn

#[test]
fn derived_id_is_sha256_prefix() {
    assert_eq!(derive_id(""), "e3b0c44298fc1c14");
    assert_eq!(derive_id("Validating JSON encoding."), "174996bf769f1b11");
}

#[test]
fn tags_are_split_trimmed_and_lowercased() {
    let tags = strings(&["Robotics, Octopus", "  ", " ,AI,"]);
    assert_eq!(normalize_tags(&tags), strings(&["robotics", "octopus", "ai"]));
    assert_eq!(normalize_tags(&vec![]), Vec::<String>::new());
}

#[test]
fn stems_come_from_the_english_stemmer() {
    assert_eq!(stem_all(&strings(&["robotics", "running", "octopus"])), strings(&["robot", "run", "octopus"]));
    assert_eq!(stem_query("Robots"), "robot");
}

#[test]
fn learned_record_holds_normalised_tags_and_stems() {
    let e = prepare_entry("Soft robots", &strings(&["Robotics,Soft"]), None, Some("agent".to_string()), 42)
        .unwrap();
    assert_eq!(e.tags, strings(&["robotics", "soft"]));
    assert_eq!(e.associations, strings(&["robot", "soft"]));
    assert_eq!(e.source, Some("agent".to_string()));
    assert_eq!((e.timestamp, e.last_access, e.access_count), (42, 42, 0));
    assert_eq!(e.id, derive_id("Soft robots"));
    let custom = prepare_entry("Soft robots", &vec![], Some("mine".to_string()), None, 1).unwrap();
    assert_eq!(custom.id, "mine");
}

#[test]
fn content_length_counts_bytes() {
    let two_byte = "\u{e9}".repeat(5_001);
    assert_eq!(prepare_entry(&two_byte, &vec![], None, None, 1).err(), Some(LearnError::ContentTooLong));
    let fits = "\u{e9}".repeat(5_000);
    assert!(prepare_entry(&fits, &vec![], None, None, 1).is_ok());
    assert_eq!(prepare_entry("", &vec![], None, None, 1).err(), Some(LearnError::EmptyContent));
}

// ------------------------------------------------------------------ commit

#[test]
fn sort_orders_by_identifier() {
    let v = vec![row("b", "", 1, &[]), row("a", "", 2, &[]), row("c", "", 3, &[])];
    let ids: Vec<String> = sort_by_id(&v).into_iter().map(|e| e.id).collect();
    assert_eq!(ids, strings(&["a", "b", "c"]));
}

#[test]
fn snapshot_keeps_newest_versions_in_identifier_order() {
    let log = vec![row("z", "z1", 1, &[]), row("m", "m1", 1, &[]), row("z", "z2", 2, &[])];
    let snap = snapshot(&log);
    let got: Vec<(String, String)> = snap.into_iter().map(|e| (e.id, e.content)).collect();
    assert_eq!(got, vec![("m".to_string(), "m1".to_string()), ("z".to_string(), "z2".to_string())]);
}

fn object(id: &str, content: &str, tags: &[&str]) -> serde_json::Value {
    let mut m = serde_json::Map::new();
    m.insert("id".to_string(), serde_json::Value::from(id));
    m.insert("content".to_string(), serde_json::Value::from(content));
    m.insert("tags".to_string(), serde_json::Value::from(strings(tags)));
    serde_json::Value::Object(m)
}

#[test]
fn exported_line_is_compact_json_of_id_content_and_tags() {
    let mut e = row("a", "x \"quoted\"", 9, &["stem"]);
    e.access_count = 4;
    let lines = commit::run(&vec![e]);
    assert_eq!(lines.len(), 1);
    assert!(!lines[0].contains('\n') && !lines[0].contains(": "));
    let parsed: serde_json::Value = serde_json::from_str(&lines[0]).unwrap();
    assert_eq!(parsed, object("a", "x \"quoted\"", &["stem"]));
    let mut old = row("b", "y", 1, &["robot"]);
    old.tags = vec![];
    let parsed: serde_json::Value = serde_json::from_str(&commit::run(&vec![old])[0]).unwrap();
    assert_eq!(parsed, object("b", "y", &["robot"]));
    assert!(commit::run(&vec![]).is_empty());
}

// ------------------------------------------------------------------ think

#[test]
fn overlay_keeps_local_metadata_and_takes_shared_text() {
    let mut local = row("k", "old text", 10, &["old"]);
    local.access_count = 3;
    local.last_access = 15;
    local.source = Some("s".to_string());
    let lines = strings(&[
        r#"{"id":"k","content":"new text","tags":["robots"]}"#,
        "   ",
        "not json",
        r#"{"content":"no id"}"#,
        r#"{"id":"","content":"empty id"}"#,
        r#"{"id":"n","tags":["a",1,"b"]}"#,
    ]);
    let canonical = build_canonical_entries(&vec![local], &lines, 99);
    assert_eq!(canonical.len(), 2);
    let k = canonical.iter().find(|e| e.id == "k").unwrap();
    assert_eq!(k.content, "new text");
    assert_eq!(k.tags, strings(&["robots"]));
    assert_eq!(k.associations, strings(&["robot"]));
    assert_eq!((k.timestamp, k.last_access, k.access_count), (10, 15, 3));
    assert_eq!(k.source, Some("s".to_string()));
    let n = canonical.iter().find(|e| e.id == "n").unwrap();
    assert_eq!(n.content, "");
    assert_eq!(n.tags, strings(&["a", "b"]));
    assert_eq!((n.timestamp, n.last_access, n.access_count), (99, 99, 1));
    assert_eq!(n.source, None);
}

#[test]
fn a_shared_snapshot_merges_into_another_log() {
    let shared_log = vec![
        prepare_entry("fact from A", &strings(&["Robots"]), Some("x".to_string()), None, 10).unwrap(),
        prepare_entry("only A knows", &vec![], Some("z".to_string()), None, 11).unwrap(),
    ];
    let lines = commit::run(&shared_log);
    let mut known = row("x", "old wording", 5, &["old"]);
    known.access_count = 7;
    known.source = Some("b".to_string());
    let mine = row("y", "only B knows", 6, &["mine"]);
    let canonical = build_canonical_entries(&vec![known, mine], &lines, 100);
    assert_eq!(canonical.len(), 3);
    let x = canonical.iter().find(|e| e.id == "x").unwrap();
    assert_eq!(x.content, "fact from A");
    assert_eq!(x.tags, strings(&["robots"]));
    assert_eq!(x.associations, strings(&["robot"]));
    assert_eq!((x.timestamp, x.access_count, x.source.clone()), (5, 7, Some("b".to_string())));
    let y = canonical.iter().find(|e| e.id == "y").unwrap();
    assert_eq!((y.content.as_str(), y.timestamp, y.access_count), ("only B knows", 6, 0));
    let z = canonical.iter().find(|e| e.id == "z").unwrap();
    assert_eq!((z.content.as_str(), z.timestamp, z.access_count, z.last_access), ("only A knows", 100, 1, 100));
}

#[test]
fn test_think_handles_missing_musings() {
    let canonical = build_canonical_entries(&vec![], &vec![], 5);
    assert!(canonical.is_empty());
    assert!(brain_rows(&canonical).is_empty());
    assert!(synapse_signals(&canonical).is_empty());
}

#[test]
fn test_think_generates_parquet_with_activation() {
    let e1 = prepare_entry("Entry 1", &strings(&["tag1"]), None, None, 1).unwrap();
    let e2 = prepare_entry("Entry 2", &strings(&["tag2"]), None, None, 2).unwrap();
    let rows = brain_rows(&build_canonical_entries(&vec![e1, e2], &vec![], 3));
    assert_eq!(rows.len(), 2);
    assert!(rows[0].id > rows[1].id, "cache rows are in descending order of identifier");
}

#[test]
fn cache_rows_show_stems_when_tags_are_missing() {
    let mut old = row("o", "c", 1, &["robot"]);
    old.tags = vec![];
    let rows = brain_rows(&vec![old]);
    assert_eq!(rows[0].tags, strings(&["robot"]));
}

#[test]
fn co_activations_pair_every_two_stems_smaller_first() {
    let e = row("e", "", 7, &["b", "a", "c"]);
    let single = row("s", "", 8, &["solo"]);
    let cs = co_activations(&vec![e, single]);
    let pairs: Vec<(String, String, i64)> =
        cs.iter().map(|c| (c.tag_a.clone(), c.tag_b.clone(), c.timestamp)).collect();
    assert_eq!(
        pairs,
        vec![
            ("b".to_string(), "c".to_string(), 7),
            ("a".to_string(), "b".to_string(), 7),
            ("a".to_string(), "c".to_string(), 7),
        ]
    );
    let signals = aggregate_signals(&cs);
    assert_eq!(signals.len(), 3);
    assert!(signals.iter().all(|s| s.signal_count == 1 && s.last_seen == 7));
}

#[test]
fn signals_count_pairs_across_memories() {
    let rows = vec![row("1", "", 10, &["x", "y"]), row("2", "", 30, &["y", "x"]), row("3", "", 20, &["x", "y", "z"])];
    let signals = synapse_signals(&rows);
    let xy = signals.iter().find(|s| s.tag_a == "x" && s.tag_b == "y").unwrap();
    assert_eq!((xy.signal_count, xy.last_seen), (3, 30));
    let yz = signals.iter().find(|s| s.tag_a == "y" && s.tag_b == "z").unwrap();
    assert_eq!((yz.signal_count, yz.last_seen), (1, 20));
    assert_eq!(signals.len(), 3);
}

// ------------------------------------------------------------------ query

#[test]
fn a_row_matches_by_regex_stem_or_semantic_id() {
    let r = row("id1", "The Robot", 1, &["arm"]);
    assert!(matches_row(&r, &"rob.t".to_string(), &vec![]));
    assert!(!matches_row(&r, &"zzz".to_string(), &vec![]));
    assert!(matches_row(&r, &"arm".to_string(), &vec![]));
    assert!(!matches_row(&r, &"(".to_string(), &vec![]));
    assert!(matches_row(&r, &"zzz".to_string(), &strings(&["id1"])));
    let rows = vec![r, row("id2", "nothing", 2, &[])];
    assert_eq!(matching_rows(&rows, &"robot".to_string(), &vec![]), vec![0]);
    assert_eq!(matching_rows(&rows, &"zzz".to_string(), &strings(&["id2", "id1"])), vec![0, 1]);
    assert!(contains_string(&strings(&["a", "b"]), &"b".to_string()));
}

#[test]
fn search_ranks_matches_and_limits_what_is_shown() {
    let rows = vec![
        row("a", "robot one", 10, &[]),
        row("b", "garden", 50, &[]),
        row("c", "robot two", 30, &[]),
        row("d", "robots three", 20, &[]),
    ];
    let outcome = search(&rows, "Robots", 2, &vec![], 100);
    assert_eq!(outcome.key, "robot");
    assert_eq!(outcome.ranked, vec![2, 3, 0]);
    assert_eq!(outcome.shown, vec![2, 3]);
    assert_eq!(ids_of(&rows, &outcome.shown), strings(&["c", "d"]));
    let none = search(&rows, "zebra", 5, &vec![], 100);
    assert!(none.ranked.is_empty() && none.shown.is_empty());
}

#[test]
fn reinforcement_rewrites_only_shown_memories() {
    let shown = row("s", "shown", 1, &[]);
    let other = row("o", "other", 1, &[]);
    let lines = vec![
        LogLine { raw: "raw-shown".to_string(), entry: Some(shown) },
        LogLine { raw: "  ".to_string(), entry: None },
        LogLine { raw: "{broken".to_string(), entry: None },
        LogLine { raw: "raw-other".to_string(), entry: Some(other) },
    ];
    let (out, updated) = reinforce_lines(&lines, &strings(&["s"]), 500);
    assert!(updated);
    assert_eq!(out.len(), 3);
    match &out[0] {
        LineOut::Rewritten(e) => assert_eq!((e.access_count, e.last_access, e.timestamp), (1, 500, 1)),
        LineOut::Verbatim(_) => panic!("shown memory kept verbatim"),
    }
    match &out[1] {
        LineOut::Verbatim(s) => assert_eq!(s, "{broken"),
        LineOut::Rewritten(_) => panic!("unparsed line rewritten"),
    }
    match &out[2] {
        LineOut::Verbatim(s) => assert_eq!(s, "raw-other"),
        LineOut::Rewritten(_) => panic!("other memory rewritten"),
    }
    let (_, changed) = reinforce_lines(&lines, &strings(&["nobody"]), 500);
    assert!(!changed);
}

#[test]
fn hebbian_walk_reaches_related_memories() {
    let rows = vec![
        row("m0", "", 10, &["a", "b"]),
        row("m1", "", 30, &["b", "c"]),
        row("m2", "", 20, &["b"]),
        row("m3", "", 5, &["soft"]),
    ];
    assert_eq!(found_stems(&rows, &vec![0, 1]), strings(&["a", "b", "c"]));
    assert_eq!(listed_stems(&rows, &vec![1, 0]), strings(&["b", "c", "a", "b"]));
    let tag_a = strings(&["a", "x", "c"]);
    let tag_b = strings(&["z", "y", "q"]);
    assert_eq!(linked_synapses(&tag_a, &tag_b, &strings(&["a", "q"])), vec![0, 2]);
    let picks = related_memories(&rows, &strings(&["b", "soft"]), &strings(&["m1"]), 100);
    assert_eq!(picks, vec![2, 3]);
    let again = related_memories(&rows, &strings(&["b", "b"]), &vec![], 100);
    assert_eq!(again, vec![1, 2]);
}

#[test]
fn table_rows_and_recompile_decision() {
    let mut e = row("t", "content", 1, &["a", "b"]);
    let r = memory_row(&e);
    assert_eq!((r.content.as_str(), r.tags.as_str(), r.source.as_str()), ("content", "a, b", "\u{2014}"));
    e.source = Some("agent-7".to_string());
    assert_eq!(memory_row(&e).source, "agent-7");
    assert!(needs_recompile(false, true, 0, 0, 0));
    assert!(needs_recompile(true, false, 0, 0, 0));
    assert!(needs_recompile(true, true, 2, 0, 1));
    assert!(needs_recompile(true, true, 0, 2, 1));
    assert!(!needs_recompile(true, true, 1, 1, 1));
}

#[test]
fn literal_search_is_case_sensitive_on_content_and_caps_the_limit() {
    let rows = vec![row("0", "Robot Arm", 1, &[]), row("1", "robot leg", 2, &[]), row("2", "Soft robot", 3, &[])];
    assert_eq!(literal_search(&rows, "ROBOT", 10, 10), vec![2, 1]);
    assert_eq!(literal_search(&rows, "robot", 1, 10), vec![2]);
    assert_eq!(literal_search(&rows, "robot", 0, 10), Vec::<usize>::new());
    if usize::BITS == 64 {
        assert_eq!(literal_search(&rows, "robot", ((1u64 << 32) + 1) as usize, 10), vec![2]);
    }
}

// ------------------------------------------------------------------ embed

#[test]
fn only_memories_without_vectors_are_embedded() {
    let rows = vec![row("a", "", 1, &[]), row("b", "", 1, &[]), row("c", "", 1, &[])];
    let todo = entries_to_embed(&rows, &strings(&["b"]));
    assert_eq!(todo, vec![0, 2]);
    let mut existing = strings(&["b"]);
    existing.extend(todo.iter().map(|&i| rows[i].id.clone()));
    assert!(entries_to_embed(&rows, &existing).is_empty());
}

#[test]
fn test_update_embeddings_is_incremental() {
    let e = prepare_entry("The sky is blue.", &strings(&["sky"]), None, None, 10).unwrap();
    let canonical = build_canonical_entries(&vec![e], &vec![], 20);
    let first = entries_to_embed(&canonical, &vec![]);
    assert_eq!(first, vec![0]);
    let cached = ids_of(&canonical, &first);
    assert!(entries_to_embed(&canonical, &cached).is_empty(), "second think should not duplicate embeddings");
}

#[test]
fn batches_cover_all_items_in_order() {
    assert_eq!(chunk_ranges(250), vec![(0, 100), (100, 200), (200, 250)]);
    assert_eq!(chunk_ranges(100), vec![(0, 100)]);
    assert_eq!(chunk_ranges(1), vec![(0, 1)]);
    assert!(chunk_ranges(0).is_empty());
}

// ------------------------------------------------------------------ init

#[test]
fn gitignore_lines_are_added_once() {
    let first = gitignore_additions("");
    assert_eq!(first.len(), 6);
    let written: String = first.iter().map(|l| format!("{}\n", l)).collect();
    assert!(gitignore_additions(&written).is_empty());
    let partial = gitignore_additions("target/\n.medulla/musings.ndjson\n");
    assert_eq!(partial.len(), 5);
    assert!(!partial.iter().any(|l| l == ".medulla/musings.ndjson"));
}

#[test]
fn agents_protocol_is_recognised_by_its_heading() {
    assert_eq!(agents_addition("# Notes", "PROTOCOL"), Some("PROTOCOL".to_string()));
    assert_eq!(agents_addition("see Cognitive Memory Drive (Medulla) above", "PROTOCOL"), None);
}
