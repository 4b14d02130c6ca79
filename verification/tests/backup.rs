use loom_db::graph::LoomGraph;

#[test]
fn backup_round_trip_preserves_everything() {
    let mut g = LoomGraph::new(870_000);
    let a = g.add_concept("Rust".to_string(), "systems language".to_string());
    let b = g.add_episode("read the book".to_string());
    let _s = g.add_state(-250_000, 750_000);
    assert!(g.connect(&a, &b, 650_000));
    assert!(g.connect(&b, &a, -100_000));
    g.tick();
    g.tick();
    assert!(g.stimulate(&a, 800_000));
    g.last_saved = Some(123_456_789);
    let blob = g.export_backup();
    let h = LoomGraph::import_backup(&blob);
    assert_eq!(h.current_tick, g.current_tick);
    assert_eq!(h.decay_rate, g.decay_rate);
    assert_eq!(h.last_saved, g.last_saved);
    assert_eq!(h.nodes.len(), g.nodes.len());
    assert_eq!(h.edges.len(), g.edges.len());
    // The round-tripped graph renders to the identical document.
    assert_eq!(h.export_backup(), blob);
    // And it behaves the same.
    assert_eq!(h.search("rust"), g.search("rust"));
}

#[test]
fn backup_survives_awkward_text() {
    let mut g = LoomGraph::new(950_000);
    let _a = g.add_concept("spaces and 123 numbers".to_string(), "a \"quoted\" <tag> & 'more'".to_string());
    let _b = g.add_episode("line\nbreak and colon: 5:x".to_string());
    let blob = g.export_backup();
    let h = LoomGraph::import_backup(&blob);
    assert_eq!(h.export_backup(), blob);
    assert_eq!(h.search_native("quoted").len(), 1);
    assert_eq!(h.search_native("colon").len(), 1);
}

#[test]
fn import_of_malformed_text_yields_fresh_default() {
    let g = LoomGraph::import_backup("not a backup at all");
    assert_eq!(g.nodes.len(), 0);
    assert_eq!(g.edges.len(), 0);
    assert_eq!(g.current_tick, 0);
    assert_eq!(g.decay_rate, 950_000);
    assert!(g.last_saved.is_none());
    let h = LoomGraph::import_backup("");
    assert_eq!(h.decay_rate, 950_000);
    // A document whose edge names a missing node is rejected too.
    let bad = "loom 950000 0 n 0 1 a 1 2 500000";
    let k = LoomGraph::import_backup(bad);
    assert_eq!(k.nodes.len(), 0);
    assert_eq!(k.decay_rate, 950_000);
}

#[test]
fn import_rejects_out_of_range_scalars() {
    // Activation above 1.0 is not a state the engine can hold.
    let bad = "loom 950000 0 n 1 c 7 2000000 1000000 0 1:a 1:b 0";
    let g = LoomGraph::import_backup(bad);
    assert_eq!(g.nodes.len(), 0);
    assert_eq!(g.decay_rate, 950_000);
    // Zero stability is rejected as well.
    let bad2 = "loom 950000 0 n 1 c 7 1000000 0 0 1:a 1:b 0";
    let h = LoomGraph::import_backup(bad2);
    assert_eq!(h.nodes.len(), 0);
}

#[test]
fn import_accepts_a_canonical_document() {
    let blob = "loom 900000 3 n 1 c 7 1000000 1000000 0 4:Rust 8:language 0";
    let g = LoomGraph::import_backup(blob);
    assert_eq!(g.nodes.len(), 1);
    assert_eq!(g.current_tick, 3);
    assert_eq!(g.decay_rate, 900_000);
    assert_eq!(g.nodes[0].meta().id, 7);
    // The index is rebuilt on load: search works immediately, and the
    // projection sees three elapsed ticks: 0.9^3 = 0.729.
    let hits = g.search_native("rust");
    assert_eq!(hits.len(), 1);
    assert_eq!(hits[0].1, 729_000);
    assert_eq!(g.export_backup(), blob);
}

#[test]
fn node_info_renders_an_episode_with_its_instant() {
    let blob = "loom 950000 0 n 1 e 9 1000000 1000000 0 0 7:weekend 0";
    let g = LoomGraph::import_backup(blob);
    assert_eq!(g.nodes.len(), 1);
    let id = loom_db::node::id_to_string(9);
    let info = g.get_node_info(&id);
    assert_eq!(
        info,
        "  <memory type='episode' activation='1.00' stability='1.00' time='1970-01-01T00:00:00+00:00'>\n    <summary>weekend</summary>\n  </memory>\n"
    );
}

#[test]
fn node_info_miss_yields_empty_document() {
    let g = LoomGraph::new(950_000);
    assert_eq!(g.get_node_info("garbage"), "{}");
    assert_eq!(g.get_node_info("00000000-0000-0000-0000-000000000000"), "{}");
}

#[test]
fn context_document_escapes_markup() {
    let mut g = LoomGraph::new(950_000);
    let _a = g.add_concept("<b>&'\"".to_string(), "safe".to_string());
    let doc = g.get_context(500_000);
    assert!(doc.contains("&lt;b&gt;&amp;&apos;&quot;"));
    assert!(!doc.contains("<b>"));
    assert!(doc.starts_with("<active_memories>\n"));
    assert!(doc.ends_with("</active_memories>"));
}

#[test]
fn context_document_when_nothing_is_active() {
    let g = LoomGraph::new(950_000);
    assert_eq!(
        g.get_context(0),
        "<active_memories>\n  <memory>No relevant active memories.</memory>\n</active_memories>"
    );
}

#[test]
fn context_document_rounds_to_two_decimals() {
    let mut g = LoomGraph::new(900_000);
    let _a = g.add_concept("round".to_string(), "trip".to_string());
    g.tick();
    g.tick();
    g.tick();
    // Projected activation 0.729 renders as 0.73 (half up).
    let doc = g.get_context(100_000);
    assert!(doc.contains("activation='0.73'"));
    assert!(doc.contains("stability='1.00'"));
}

#[test]
fn context_selects_strictly_above_threshold() {
    let mut g = LoomGraph::new(900_000);
    let _a = g.add_concept("loud".to_string(), "kept".to_string());
    let _b = g.add_state(0, 0);
    g.tick();
    // Both nodes project to 0.9 exactly: a threshold of 0.9 excludes them.
    let empty = g.get_context(900_000);
    assert!(empty.contains("No relevant active memories."));
    let doc = g.get_context(899_999);
    assert!(doc.contains("type='concept'"));
    assert!(doc.contains("<state activation="));
    assert!(doc.contains("<mood valence='0.00' arousal='0.00' />"));
}

#[test]
fn node_info_renders_a_state_with_signed_mood() {
    let blob = "loom 950000 0 n 1 s 5 1000000 1000000 0 -250000 750000 0";
    let g = LoomGraph::import_backup(blob);
    assert_eq!(g.nodes.len(), 1);
    let info = g.get_node_info(&loom_db::node::id_to_string(5));
    assert_eq!(
        info,
        "  <state activation='1.00' stability='1.00'>\n    <mood valence='-0.25' arousal='0.75' />\n  </state>\n"
    );
    assert_eq!(g.export_backup(), blob);
}
