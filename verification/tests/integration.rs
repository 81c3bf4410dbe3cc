//! Scenarios of the `med` commands, checked at the library level: each test runs the
//! logic a command runs on the same inputs, while files, locks and floating-point scores
//! (such as the Hebbian log-weights) belong to the application and are not exercised here.
use medulla::commands::commit;
use medulla::commands::init::{agents_addition, gitignore_additions};
use medulla::commands::learn::{prepare_entry, LearnError};
use medulla::commands::query::{needs_recompile, reinforce_lines, search, LineOut, LogLine};
use medulla::commands::think::{brain_rows, build_canonical_entries, synapse_signals};
use medulla::memory::MemoryEntry;
use medulla::rank::rank_by_activation;

fn entry(id: &str, content: &str, timestamp: i64, tags: &[&str], stems: &[&str]) -> MemoryEntry {
    MemoryEntry {
        id: id.to_string(),
        content: content.to_string(),
        timestamp,
        tags: tags.iter().map(|t| t.to_string()).collect(),
        associations: stems.iter().map(|t| t.to_string()).collect(),
        source: None,
        access_count: 0,
        last_access: timestamp,
    }
}

fn learned(content: &str, tags: &[&str], id: Option<&str>, now: i64) -> MemoryEntry {
    let tags: Vec<String> = tags.iter().map(|t| t.to_string()).collect();
    prepare_entry(content, &tags, id.map(|s| s.to_string()), None, now).unwrap()
}

fn find<'a>(entries: &'a [MemoryEntry], id: &str) -> &'a MemoryEntry {
    entries.iter().find(|e| e.id == id).expect("entry not found")
}

#[test]
fn test_init_creates_directory_and_files() {
    let additions = gitignore_additions("");
    assert!(additions.iter().any(|l| l == ".medulla/musings.ndjson"));
    for file in [
        ".medulla/musings.ndjson",
        ".medulla/brain.parquet",
        ".medulla/synapses.parquet",
        ".medulla/embeddings.parquet",
        ".medulla/.cache",
    ] {
        assert!(additions.iter().any(|l| l == file), "{} is not ignored", file);
    }
    assert_eq!(additions.len(), 6);
}

#[test]
fn test_learn_encodes_valid_json() {
    let e = learned("Validating JSON encoding.", &["robot", "metal"], None, 1_000);
    assert_eq!(e.associations, vec!["robot".to_string(), "metal".to_string()]);
    assert_eq!(e.tags, vec!["robot".to_string(), "metal".to_string()]);
    assert_eq!(e.id, "174996bf769f1b11");
    assert_eq!(e.access_count, 0);
    assert_eq!(e.timestamp, 1_000);
    assert_eq!(e.last_access, 1_000);
}

#[test]
fn test_think_deduplicates_updates() {
    let v1 = learned("Version 1", &[], Some("fixed-id-123"), 1_000);
    let v2 = learned("Version 2", &[], Some("fixed-id-123"), 2_100);
    let canonical = build_canonical_entries(&vec![v1, v2], &vec![], 3_000);
    let rows = brain_rows(&canonical);
    assert_eq!(rows.len(), 1);
    assert_eq!(rows[0].content, "Version 2");
}

#[test]
fn test_act_r_activation_sorting() {
    let old = learned("Old Memory", &[], None, 1_000);
    let new = learned("New Memory", &[], None, 1_001);
    let rows = brain_rows(&build_canonical_entries(&vec![old, new], &vec![], 2_000));
    let all: Vec<usize> = (0..rows.len()).collect();
    let ranked = rank_by_activation(&rows, &all, 2_000);
    assert_eq!(rows[ranked[0]].content, "New Memory");
    assert_eq!(rows[ranked[1]].content, "Old Memory");
}

#[test]
fn test_hebbian_association_strengthening() {
    let m1 = learned("Memory 1", &["robotics", "octopus"], None, 1_000);
    let m2 = learned("Memory 2", &["robotics", "octopus"], None, 1_500);
    let canonical = build_canonical_entries(&vec![m1, m2], &vec![], 2_000);
    let signals = synapse_signals(&canonical);
    assert_eq!(signals.len(), 1);
    assert_eq!(signals[0].tag_a, "octopus");
    assert_eq!(signals[0].tag_b, "robot");
    assert_eq!(signals[0].signal_count, 2);
    assert_eq!(signals[0].last_seen, 1_500);
}

#[test]
fn test_hebbian_reconstruction_from_musings() {
    let m1 = learned("Octopus soft robotics.", &["robotics", "octopus"], None, 10);
    let m2 = learned("Octopus robot chassis.", &["robotics", "octopus"], None, 20);
    let canonical = build_canonical_entries(&vec![m1, m2], &vec![], 30);
    let signals = synapse_signals(&canonical);
    assert!(!signals.is_empty());
    assert_eq!(signals[0].signal_count, 2);
}

#[test]
fn test_full_cognitive_loop_octopus_robotics() {
    let m1 = learned("Octopus tentacles use silicone.", &["octopus", "silicone"], None, 10);
    let m2 = learned("Robotics joints use silicone.", &["robotics", "silicone"], None, 20);
    let canonical = build_canonical_entries(&vec![m1, m2], &vec![], 30);
    let signals = synapse_signals(&canonical);
    assert!(signals.len() >= 1);
    let pairs: Vec<(String, String)> =
        signals.iter().map(|s| (s.tag_a.clone(), s.tag_b.clone())).collect();
    assert!(pairs.contains(&("octopus".to_string(), "silicon".to_string())));
    assert!(pairs.contains(&("robot".to_string(), "silicon".to_string())));
}

#[test]
fn test_recency_bias_and_reconstruction() {
    let mut musings = Vec::new();
    for i in 0..5 {
        musings.push(entry(&format!("old_{}", i), "Old heavy robot", 100, &[], &["robotics", "heavy"]));
    }
    for i in 0..2 {
        musings.push(entry(&format!("recent_{}", i), "Recent soft robot", 900, &[], &["robotics", "soft"]));
    }
    let canonical = build_canonical_entries(&musings, &vec![], 1_000);
    let signals = synapse_signals(&canonical);
    let heavy = signals.iter().find(|s| s.tag_a == "heavy").expect("heavy synapse");
    let soft = signals.iter().find(|s| s.tag_b == "soft").expect("soft synapse");
    assert_eq!((heavy.signal_count, heavy.last_seen), (5, 100));
    assert_eq!((soft.signal_count, soft.last_seen), (2, 900));
}

#[test]
fn test_commit_deduplicates_and_strips_metadata() {
    let musings = vec![
        learned("Version 1", &["alpha"], Some("fixed-commit-id"), 1),
        learned("Version 2", &["beta"], Some("fixed-commit-id"), 2),
        learned("Another fact", &["gamma"], None, 3),
    ];
    let lines = commit::run(&musings);
    assert_eq!(lines.len(), 2, "Expected 2 deduplicated entries, got {}", lines.len());
    for line in &lines {
        let obj: serde_json::Value = serde_json::from_str(line).unwrap();
        assert!(obj.get("id").is_some());
        assert!(obj.get("content").is_some());
        assert!(obj.get("tags").is_some());
        assert!(obj.get("timestamp").is_none());
        assert!(obj.get("access_count").is_none());
        assert!(obj.get("last_access").is_none());
    }
    let objs: Vec<serde_json::Value> =
        lines.iter().map(|l| serde_json::from_str(l).unwrap()).collect();
    let fixed = objs.iter().find(|o| o["id"] == "fixed-commit-id").expect("fixed-commit-id not found");
    assert_eq!(fixed["content"], "Version 2");
    assert_eq!(fixed["tags"][0], "beta");
    assert_eq!(fixed["tags"].as_array().map(|a| a.len()), Some(1));
    let ids: Vec<String> = objs.iter().map(|o| o["id"].as_str().unwrap().to_string()).collect();
    let mut sorted = ids.clone();
    sorted.sort();
    assert_eq!(ids, sorted, "brain.ndjson entries are not sorted by id");
    assert_eq!(ids, vec!["2b97744829374a3a".to_string(), "fixed-commit-id".to_string()]);
}

#[test]
fn test_commit_idempotent() {
    let musings = vec![learned("Stable fact", &["tag"], None, 5)];
    let first = commit::run(&musings);
    let second = commit::run(&musings);
    assert_eq!(first, second, "Repeated commits must produce identical output");
}

#[test]
fn test_query_triggers_recompile_on_brain_ndjson_drift() {
    // The cache was built at 100, after the log (90) and the shared file (80): no rebuild.
    assert!(!needs_recompile(true, true, 90, 80, 100));
    // A git pull rewrites brain.ndjson at 120, after the cache: the query rebuilds it.
    assert!(needs_recompile(true, true, 90, 120, 100));
    let musings = vec![learned("local baseline", &["local"], None, 10)];
    let git_entry =
        r#"{"id":"git-pulled-id","content":"fact arrived via git pull","tags":["remote"]}"#;
    let canonical = build_canonical_entries(&musings, &vec![git_entry.to_string()], 50);
    let rows = brain_rows(&canonical);
    let contents: Vec<&str> = rows.iter().map(|r| r.content.as_str()).collect();
    assert!(contents.contains(&"fact arrived via git pull"));
    let pulled = find(&canonical, "git-pulled-id");
    assert_eq!(pulled.timestamp, 50);
    assert_eq!(pulled.access_count, 1);
    assert_eq!(pulled.associations, vec!["remot".to_string()]);
    let outcome = search(&rows, "git pull", 5, &vec![], 50);
    assert_eq!(outcome.shown.len(), 1);
    assert_eq!(rows[outcome.shown[0]].id, "git-pulled-id");
}

#[test]
fn test_learn_merges_with_existing_brain_ndjson() {
    let committed =
        r#"{"id":"committed-id","content":"previously committed fact","tags":["committed"]}"#;
    let musings = vec![learned("newly learned fact", &["fresh"], None, 10)];
    let canonical = build_canonical_entries(&musings, &vec![committed.to_string()], 20);
    assert_eq!(canonical.len(), 2, "Expected 2 entries, got {}", canonical.len());
    let contents: Vec<&str> = canonical.iter().map(|e| e.content.as_str()).collect();
    assert!(contents.contains(&"previously committed fact"));
    assert!(contents.contains(&"newly learned fact"));
}

#[test]
fn test_query_reinforces_memory() {
    let e = learned("Testing the memory reinforcement loop.", &["robot"], None, 100);
    assert_eq!(e.access_count, 0, "Memory should start with an access count of 0.");
    let id = e.id.clone();
    let rows = brain_rows(&build_canonical_entries(&vec![e.duplicate()], &vec![], 150));
    let outcome = search(&rows, "robot", 5, &vec![], 150);
    assert_eq!(outcome.shown.len(), 1);
    let shown_ids = vec![rows[outcome.shown[0]].id.clone()];
    let lines = vec![LogLine { raw: "{}".to_string(), entry: Some(e) }];
    let (out, updated) = reinforce_lines(&lines, &shown_ids, 200);
    assert!(updated);
    match &out[0] {
        LineOut::Rewritten(r) => {
            assert_eq!(r.id, id);
            assert_eq!(r.access_count, 1, "Access count failed to increment.");
            assert!(r.last_access > 100, "Last access timestamp did not update.");
        }
        LineOut::Verbatim(_) => panic!("the shown memory was not rewritten"),
    }
}

#[test]
fn test_learn_rejects_bad_input() {
    let no_tags: Vec<String> = vec![];
    assert_eq!(prepare_entry("   \t", &no_tags, None, None, 1).err(), Some(LearnError::EmptyContent));
    let long = "x".repeat(10_001);
    assert_eq!(prepare_entry(&long, &no_tags, None, None, 1).err(), Some(LearnError::ContentTooLong));
    let exact = "x".repeat(10_000);
    assert!(prepare_entry(&exact, &no_tags, None, None, 1).is_ok());
    let many: Vec<String> = (0..51).map(|i| format!("t{}", i)).collect();
    assert_eq!(prepare_entry("fact", &many, None, None, 1).err(), Some(LearnError::TooManyTags(51)));
    let fifty: Vec<String> = (0..50).map(|i| format!("t{}", i)).collect();
    assert!(prepare_entry("fact", &fifty, None, None, 1).is_ok());
}

#[test]
fn test_agents_protocol_appended_once() {
    let protocol = "# Cognitive Memory Drive (Medulla)\nUse med.";
    assert_eq!(agents_addition("", protocol), Some(protocol.to_string()));
    let after = format!("{}\n", protocol);
    assert_eq!(agents_addition(&after, protocol), None);
}
