use loom_db::graph::LoomGraph;
use loom_db::fixed::SCALE;

#[test]
fn decay_three_ticks() {
    // Decay 0.9, one concept, three ticks: 1.0 * 0.9^3 = 0.729 exactly.
    let mut g = LoomGraph::new(900_000);
    let _id = g.add_concept("A".to_string(), "a".to_string());
    g.tick();
    g.tick();
    g.tick();
    let hits = g.search_native("a");
    assert_eq!(hits.len(), 1);
    assert_eq!(hits[0].1, 729_000);
    // The projection does not write back.
    assert_eq!(g.nodes[0].meta().activation, SCALE);
}

#[test]
fn decay_monotonic_over_time() {
    let mut g = LoomGraph::new(950_000);
    let _id = g.add_concept("fade".to_string(), "away".to_string());
    g.tick();
    let first = g.search_native("fade")[0].1;
    g.tick();
    let second = g.search_native("fade")[0].1;
    g.tick();
    let third = g.search_native("fade")[0].1;
    assert!(first > second && second > third);
}

#[test]
fn spread_with_damping() {
    let mut g = LoomGraph::new(950_000);
    let x = g.add_concept("xx".to_string(), "source".to_string());
    let y = g.add_concept("yy".to_string(), "middle".to_string());
    let z = g.add_concept("zz".to_string(), "far".to_string());
    assert!(g.connect(&x, &y, 1_000_000));
    assert!(g.connect(&y, &z, 1_000_000));
    g.tick();
    let x_before = g.search_native("xx")[0].1;
    let y_before = g.search_native("yy")[0].1;
    let z_before = g.search_native("zz")[0].1;
    assert!(g.stimulate(&x, 1_000_000));
    let x_after = g.search_native("xx")[0].1;
    let y_after = g.search_native("yy")[0].1;
    let z_after = g.search_native("zz")[0].1;
    // X saturates; Y gets ripple 0.5; Z gets ripple 0.25.
    assert_eq!(x_after, 1_000_000);
    assert_eq!(y_after, 975_000);
    assert_eq!(z_after, 962_500);
    assert!(x_after > x_before && y_after > y_before && z_after > z_before);
}

#[test]
fn inhibition_pushes_activation_down() {
    let mut g = LoomGraph::new(800_000);
    let x = g.add_concept("xx".to_string(), "driver".to_string());
    let y = g.add_concept("yy".to_string(), "target".to_string());
    assert!(g.connect(&x, &y, -1_000_000));
    g.tick();
    // Y decays to 0.8 and the ripple 0.4 * (-1.0) * 0.5 lands on it.
    assert!(g.stimulate(&x, 400_000));
    let y_after = g.search_native("yy")[0].1;
    assert_eq!(y_after, 600_000);
}

#[test]
fn boost_saturation() {
    let mut g = LoomGraph::new(950_000);
    let a = g.add_concept("peak".to_string(), "strong".to_string());
    assert!(g.stimulate(&a, 1_000_000));
    assert_eq!(g.nodes[0].meta().activation, SCALE);
    let s1 = g.nodes[0].meta().stability;
    assert_eq!(s1, 3_450_000);
    assert!(g.stimulate(&a, 1_000_000));
    assert_eq!(g.nodes[0].meta().activation, SCALE);
    let s2 = g.nodes[0].meta().stability;
    assert_eq!(s2, 5_777_500);
    assert!(s2 > s1);
}

#[test]
fn dream_consolidates() {
    let mut g = LoomGraph::new(950_000);
    let _a = g.add_concept("bright".to_string(), "memory".to_string());
    let s0 = g.nodes[0].meta().stability;
    let t0 = g.current_tick;
    let summary = g.dream();
    assert_eq!(summary, "promoted 1, pruned 0");
    assert_eq!(g.current_tick, t0 + 480);
    let s1 = g.nodes[0].meta().stability;
    assert!(s1 > s0);
    assert_eq!(s1, 1_495_000);
    // activation = 0.3 * 1.0 + min(0.2, s1 / 100)
    assert_eq!(g.nodes[0].meta().activation, 314_950);
    assert_eq!(g.nodes[0].meta().last_tick, g.current_tick);
}

#[test]
fn dream_prunes_weak_nodes() {
    let mut g = LoomGraph::new(500_000);
    let weak = g.add_concept("weak".to_string(), "memory".to_string());
    for _ in 0..25 {
        g.tick();
    }
    // Materialize the decayed activation (a zero-force touch), then sleep:
    // the stored activation collapses to the baseline and the node is
    // washed out.
    assert!(g.stimulate(&weak, 0));
    assert!(g.nodes[0].meta().activation < 100_000);
    let summary = g.dream();
    assert_eq!(summary, "promoted 0, pruned 1");
    assert_eq!(g.nodes.len(), 0);
}

#[test]
fn search_ranking_tie_breaks_by_identifier() {
    let mut g = LoomGraph::new(950_000);
    let _r = g.add_concept("Rust".to_string(), "systems language".to_string());
    let _t = g.add_concept("Trust".to_string(), "confidence".to_string());
    let hits = g.search_native("rust");
    assert_eq!(hits.len(), 2);
    assert_eq!(hits[0].1, SCALE);
    assert_eq!(hits[1].1, SCALE);
    assert!(hits[0].0 < hits[1].0);
}

#[test]
fn search_is_case_folded_and_trimmed() {
    let mut g = LoomGraph::new(950_000);
    let _r = g.add_concept("Rust".to_string(), "systems language".to_string());
    assert_eq!(g.search_native("  RUST  ").len(), 1);
    assert_eq!(g.search_native("SYSTEMS").len(), 1);
    assert_eq!(g.search_native("").len(), 0);
    assert_eq!(g.search_native("   ").len(), 0);
    assert_eq!(g.search_native("python").len(), 0);
}

#[test]
fn tokens_are_trimmed_of_punctuation() {
    let mut g = LoomGraph::new(950_000);
    let _r = g.add_concept("Rust!!!".to_string(), "(parens)".to_string());
    // The stored tokens are "rust" and "parens": a query that still carries
    // the punctuation cannot be one of their substrings.
    assert_eq!(g.search_native("rust!!!").len(), 0);
    assert_eq!(g.search_native("rust").len(), 1);
    assert_eq!(g.search_native("parens").len(), 1);
}

#[test]
fn states_are_not_indexed() {
    let mut g = LoomGraph::new(950_000);
    let _s = g.add_state(300_000, 500_000);
    assert_eq!(g.index.len(), 0);
    assert_eq!(g.search_native("a").len(), 0);
}

#[test]
fn search_string_rendering() {
    let mut g = LoomGraph::new(900_000);
    let id = g.add_concept("solo".to_string(), "only".to_string());
    g.tick();
    let rendered = g.search("solo");
    let expected = format!("[[\"{}\",0.900000]]", id);
    assert_eq!(rendered, expected);
    assert_eq!(g.search("nothing"), "[]");
}

#[test]
fn connect_rejects_bad_or_unknown_identifiers() {
    let mut g = LoomGraph::new(950_000);
    let a = g.add_concept("aa".to_string(), "left".to_string());
    assert!(!g.connect("not-a-uuid", &a, 1_000_000));
    assert!(!g.connect(&a, "not-a-uuid", 1_000_000));
    // A well-formed identifier that names no node.
    assert!(!g.connect(&a, "00000000-0000-0000-0000-000000000000", 1_000_000));
    assert_eq!(g.edges.len(), 0);
    assert!(g.connect(&a, &a, 500_000));
    assert_eq!(g.edges.len(), 1);
}

#[test]
fn stimulate_rejects_bad_or_unknown_identifiers() {
    let mut g = LoomGraph::new(950_000);
    let _a = g.add_concept("aa".to_string(), "left".to_string());
    assert!(!g.stimulate("garbage", 1_000_000));
    assert!(!g.stimulate("00000000-0000-0000-0000-000000000000", 1_000_000));
}

#[test]
fn weak_ripples_are_dropped() {
    let mut g = LoomGraph::new(950_000);
    let x = g.add_concept("xx".to_string(), "src".to_string());
    let y = g.add_concept("yy".to_string(), "dst".to_string());
    // ripple = 1.0 * 0.019 * 0.5 = 0.0095 < 0.01: below the threshold.
    assert!(g.connect(&x, &y, 19_000));
    g.tick();
    let y_before = g.search_native("yy")[0].1;
    assert!(g.stimulate(&x, 1_000_000));
    let y_after = g.search_native("yy")[0].1;
    assert_eq!(y_before, y_after);
}

#[test]
fn prune_removes_exactly_the_weak_node() {
    let mut g = LoomGraph::new(500_000);
    let a = g.add_concept("aa".to_string(), "left".to_string());
    let b = g.add_concept("bb".to_string(), "right".to_string());
    assert!(g.connect(&a, &b, 1_000_000));
    for _ in 0..25 {
        g.tick();
    }
    // Materialize the decay on A; revive B.
    assert!(g.stimulate(&a, 0));
    assert!(g.stimulate(&b, 1_000_000));
    let removed = g.prune_low_stability(1_200_000);
    assert_eq!(removed, 1);
    assert_eq!(g.nodes.len(), 1);
    assert_eq!(g.nodes[0].meta().id, loom_db::node::parse_id(&b).unwrap());
    // No edge and no text-index posting survives for the pruned node.
    assert_eq!(g.edges.len(), 0);
    let a_id = loom_db::node::parse_id(&a).unwrap();
    for entry in g.index.iter() {
        for id in entry.ids.iter() {
            assert_ne!(*id, a_id);
        }
    }
    assert_eq!(g.search_native("aa").len(), 0);
    assert_eq!(g.search_native("bb").len(), 1);
}

#[test]
fn prune_keeps_active_low_stability_nodes() {
    let mut g = LoomGraph::new(950_000);
    let _a = g.add_concept("fresh".to_string(), "high activation".to_string());
    // Low stability but full activation: not prunable.
    assert_eq!(g.prune_low_stability(1_200_000), 0);
    assert_eq!(g.nodes.len(), 1);
}

#[test]
fn tick_advances_and_never_regresses() {
    let mut g = LoomGraph::new(950_000);
    assert_eq!(g.current_tick, 0);
    g.tick();
    assert_eq!(g.current_tick, 1);
    g.tick();
    assert_eq!(g.current_tick, 2);
}

#[test]
fn wake_up_anchors_and_catches_up() {
    let mut g = LoomGraph::new(950_000);
    // First call only sets the anchor.
    g.wake_up();
    assert_eq!(g.current_tick, 0);
    assert!(g.last_saved.is_some());
    // With an ancient anchor the clock catches up by whole minutes.
    g.last_saved = Some(0);
    g.wake_up();
    assert!(g.current_tick > 0);
    let t = g.current_tick;
    // Immediately waking again adds (almost) nothing and never regresses.
    g.wake_up();
    assert!(g.current_tick >= t && g.current_tick < t + 2);
}

#[test]
fn identifiers_are_distinct_and_parse_back() {
    let mut g = LoomGraph::new(950_000);
    let a = g.add_concept("one".to_string(), "1".to_string());
    let b = g.add_concept("two".to_string(), "2".to_string());
    assert_ne!(a, b);
    assert!(loom_db::node::parse_id(&a).is_some());
    assert_eq!(loom_db::node::id_to_string(loom_db::node::parse_id(&a).unwrap()), a);
}

#[test]
fn state_inputs_are_clamped() {
    let mut g = LoomGraph::new(950_000);
    let _s = g.add_state(5_000_000, -3);
    match &g.nodes[0] {
        loom_db::node::Node::State(_, data) => {
            assert_eq!(data.valence, 1_000_000);
            assert_eq!(data.arousal, 0);
        },
        _ => panic!("expected a state node"),
    }
}

#[test]
fn episodes_are_indexed_and_stamped() {
    let mut g = LoomGraph::new(950_000);
    let _e = g.add_episode("ate pizza at noon".to_string());
    assert_eq!(g.search_native("pizza").len(), 1);
    match &g.nodes[0] {
        loom_db::node::Node::Episode(_, data) => {
            assert!(data.timestamp >= 0);
        },
        _ => panic!("expected an episode node"),
    }
}

#[test]
fn duplicate_tokens_yield_one_hit() {
    let mut g = LoomGraph::new(950_000);
    let _a = g.add_concept("dog dog".to_string(), "dog again".to_string());
    // The posting list may carry the identifier several times; search
    // deduplicates.
    let hits = g.search_native("dog");
    assert_eq!(hits.len(), 1);
}

#[test]
fn parallel_edges_act_additively() {
    let mut g = LoomGraph::new(950_000);
    let x = g.add_concept("xx".to_string(), "src".to_string());
    let y = g.add_concept("yy".to_string(), "dst".to_string());
    assert!(g.connect(&x, &y, 500_000));
    assert!(g.connect(&x, &y, 500_000));
    g.tick();
    assert!(g.stimulate(&x, 1_000_000));
    // Two ripples of 0.25 land in sequence: 0.95, then 0.9625, then
    // 0.9625 + (1 - 0.9625) * 0.25 = 0.971875.
    assert_eq!(g.search_native("yy")[0].1, 971_875);
}
