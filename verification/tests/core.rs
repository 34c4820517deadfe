use std::collections::HashSet;

use ptg::column::{ColumnId, Topology, Weight};
use ptg::topology::{LateralConnection, TopologySpec, REWIRE_ALWAYS};

fn ids(n: usize) -> Vec<String> {
    (0..n).map(|i| format!("n{i}")).collect()
}

/// The rewire threshold `ceil(p * 2^53)` of a probability; anything that is
/// not a finite number in `[0, 1]` maps past the valid range.
fn rewire(p: f64) -> u64 {
    if p.is_finite() && (0.0..=1.0).contains(&p) {
        (p * 9_007_199_254_740_992.0).ceil() as u64
    } else {
        u64::MAX
    }
}

fn small_world(degree: usize, p: f64, seed: u64) -> TopologySpec {
    TopologySpec::SmallWorld { degree, rewire_threshold: rewire(p), seed }
}

#[test]
fn column_id_displays_stable_prefix() {
    assert_eq!(ColumnId::new(7).to_string(), "col-7");
}

#[test]
fn topology_neighbors_respect_direction() {
    let mut topo = Topology::new();
    topo.connect(ColumnId::new(1), ColumnId::new(2), Weight { key: (0.5f32).to_bits() | 0x8000_0000 });
    topo.connect(ColumnId::new(3), ColumnId::new(2), Weight { key: (0.25f32).to_bits() | 0x8000_0000 });
    let neighbors = topo.neighbors(&ColumnId::new(2));
    assert_eq!(neighbors.len(), 2);
}

#[test]
fn empty_id_list_is_rejected() {
    let spec = TopologySpec::FullyConnected;
    assert!(spec.connections_for(&[]).is_err());
}

#[test]
fn duplicate_ids_are_rejected() {
    let dup = vec!["a".to_string(), "a".to_string()];
    assert!(TopologySpec::FullyConnected.connections_for(&dup).is_err());
}

#[test]
fn ring_unidirectional_is_a_directed_cycle() -> Result<(), String> {
    let edges = TopologySpec::Ring { bidirectional: false }
        .connections_for(&ids(5))
        .map_err(|e| e.message())?;
    assert_eq!(edges.len(), 5);
    let by_listener: std::collections::HashMap<&str, &str> = edges
        .iter()
        .map(|e| (e.listener_id.as_str(), e.source_id.as_str()))
        .collect();
    assert_eq!(by_listener["n0"], "n4");
    assert_eq!(by_listener["n1"], "n0");
    assert_eq!(by_listener["n2"], "n1");
    assert_eq!(by_listener["n3"], "n2");
    assert_eq!(by_listener["n4"], "n3");
    Ok(())
}

#[test]
fn ring_bidirectional_has_two_sources_each() -> Result<(), String> {
    let edges = TopologySpec::Ring { bidirectional: true }
        .connections_for(&ids(4))
        .map_err(|e| e.message())?;
    assert_eq!(edges.len(), 8);
    let sources_of_n0: Vec<&str> = edges
        .iter()
        .filter(|e| e.listener_id == "n0")
        .map(|e| e.source_id.as_str())
        .collect();
    assert!(sources_of_n0.contains(&"n1"));
    assert!(sources_of_n0.contains(&"n3"));
    Ok(())
}

#[test]
fn torus_has_four_distinct_cardinal_sources_with_wraparound() -> Result<(), String> {
    let edges = TopologySpec::Torus2d { width: 3, height: 3 }
        .connections_for(&ids(9))
        .map_err(|e| e.message())?;
    assert_eq!(edges.len(), 36);
    let mut sources: Vec<&str> = edges
        .iter()
        .filter(|e| e.listener_id == "n0")
        .map(|e| e.source_id.as_str())
        .collect();
    sources.sort_unstable();
    assert_eq!(sources, vec!["n1", "n2", "n3", "n6"]);
    Ok(())
}

#[test]
fn torus_geometry_mismatch_is_rejected() {
    let res = TopologySpec::Torus2d { width: 3, height: 3 }.connections_for(&ids(8));
    assert!(res.is_err());
}

#[test]
fn torus_too_small_is_rejected() {
    let res = TopologySpec::Torus2d { width: 2, height: 2 }.connections_for(&ids(4));
    assert!(res.is_err());
}

#[test]
fn fully_connected_edge_count_is_n_times_n_minus_one() -> Result<(), String> {
    let edges = TopologySpec::FullyConnected.connections_for(&ids(5)).map_err(|e| e.message())?;
    assert_eq!(edges.len(), 20);
    let mut seen = HashSet::new();
    for e in &edges {
        assert_ne!(e.listener_id, e.source_id);
        assert!(seen.insert((e.listener_id.clone(), e.source_id.clone())));
    }
    Ok(())
}

#[test]
fn small_world_is_deterministic_for_a_fixed_seed() -> Result<(), String> {
    let spec = small_world(4, 0.3, 42);
    let a = spec.connections_for(&ids(20)).map_err(|e| e.message())?;
    let b = spec.connections_for(&ids(20)).map_err(|e| e.message())?;
    assert_eq!(a, b);
    assert_eq!(a.len(), 20 * 4);
    Ok(())
}

#[test]
fn small_world_different_seeds_can_diverge() -> Result<(), String> {
    let a = small_world(4, 0.9, 1).connections_for(&ids(40)).map_err(|e| e.message())?;
    let b = small_world(4, 0.9, 2).connections_for(&ids(40)).map_err(|e| e.message())?;
    assert_ne!(a, b, "different seeds should diverge at high p");
    Ok(())
}

#[test]
fn small_world_rejects_odd_degree() {
    let res = small_world(3, 0.2, 1).connections_for(&ids(20));
    assert!(res.is_err());
}

#[test]
fn small_world_rejects_bad_probability() {
    let res = small_world(4, 1.5, 1).connections_for(&ids(20));
    assert!(res.is_err());
}

#[test]
fn custom_validates_self_and_unknown_and_dup() {
    let id5 = ids(5);
    let self_edge = TopologySpec::Custom(vec![LateralConnection::new("n0", "n0")]);
    assert!(self_edge.connections_for(&id5).is_err());
    let unknown = TopologySpec::Custom(vec![LateralConnection::new("n0", "zzz")]);
    assert!(unknown.connections_for(&id5).is_err());
    let dup = TopologySpec::Custom(vec![LateralConnection::new("n0", "n1"), LateralConnection::new("n0", "n1")]);
    assert!(dup.connections_for(&id5).is_err());
}

#[test]
fn zero_seed_does_not_collide_with_nonzero() -> Result<(), String> {
    let a = small_world(4, 0.5, 0).connections_for(&ids(30)).map_err(|e| e.message())?;
    let b = small_world(4, 0.5, 7).connections_for(&ids(30)).map_err(|e| e.message())?;
    assert_ne!(a, b);
    Ok(())
}

#[test]
fn ring_bidirectional_n2_yields_two_distinct_edges() -> Result<(), String> {
    let edges = TopologySpec::Ring { bidirectional: true }
        .connections_for(&ids(2))
        .map_err(|e| e.message())?;
    assert_eq!(edges.len(), 2);
    assert_eq!(edges[0].listener_id, "n0");
    assert_eq!(edges[0].source_id, "n1");
    assert_eq!(edges[1].listener_id, "n1");
    assert_eq!(edges[1].source_id, "n0");
    Ok(())
}

fn canon(cs: Vec<LateralConnection>) -> Vec<(String, String)> {
    let mut v: Vec<(String, String)> = cs.into_iter().map(|e| (e.listener_id, e.source_id)).collect();
    v.sort();
    v
}

#[test]
fn documented_degenerate_equivalences() -> Result<(), String> {
    let id2 = ids(2);
    assert_eq!(
        canon(TopologySpec::Ring { bidirectional: true }.connections_for(&id2).map_err(|e| e.message())?),
        canon(TopologySpec::FullyConnected.connections_for(&id2).map_err(|e| e.message())?)
    );
    let id3 = ids(3);
    assert_eq!(
        canon(TopologySpec::Ring { bidirectional: true }.connections_for(&id3).map_err(|e| e.message())?),
        canon(TopologySpec::FullyConnected.connections_for(&id3).map_err(|e| e.message())?)
    );
    let id5 = ids(5);
    let fc5 = TopologySpec::FullyConnected.connections_for(&id5).map_err(|e| e.message())?;
    let fc5_again = TopologySpec::FullyConnected.connections_for(&id5).map_err(|e| e.message())?;
    assert_eq!(
        canon(small_world(4, 0.0, 1).connections_for(&id5).map_err(|e| e.message())?),
        canon(fc5),
        "degree==n-1 on odd n must collapse to the complete graph"
    );
    assert_eq!(
        canon(small_world(4, 1.0, 99).connections_for(&id5).map_err(|e| e.message())?),
        canon(fc5_again)
    );
    let id20 = ids(20);
    let lattice = small_world(4, 0.0, 1).connections_for(&id20).map_err(|e| e.message())?;
    let rewired = small_world(4, 1.0, 1).connections_for(&id20).map_err(|e| e.message())?;
    assert_eq!(lattice.len(), 80);
    assert_eq!(rewired.len(), 80, "out-degree is preserved");
    assert_ne!(canon(lattice), canon(rewired), "degree<<n with high p should actually rewire");
    assert_ne!(
        canon(small_world(4, 0.5, 1).connections_for(&id20).map_err(|e| e.message())?),
        canon(TopologySpec::FullyConnected.connections_for(&id20).map_err(|e| e.message())?),
        "sane small-world is not fully connected"
    );
    Ok(())
}

#[test]
fn rewire_threshold_bounds_are_accepted() -> Result<(), String> {
    assert_eq!(rewire(1.0), REWIRE_ALWAYS);
    let edges = TopologySpec::SmallWorld { degree: 2, rewire_threshold: REWIRE_ALWAYS, seed: 3 }
        .connections_for(&ids(10))
        .map_err(|e| e.message())?;
    assert_eq!(edges.len(), 20);
    let too_far = TopologySpec::SmallWorld { degree: 2, rewire_threshold: REWIRE_ALWAYS + 1, seed: 3 }
        .connections_for(&ids(10));
    match too_far {
        Err(e) => assert_eq!(e.message(), "rewire_probability out of range: must be a finite number in [0, 1]"),
        Ok(_) => return Err("expected an out-of-range error".to_string()),
    }
    Ok(())
}

#[test]
fn topology_error_messages_name_the_problem() {
    match (TopologySpec::Torus2d { width: 3, height: 3 }).connections_for(&ids(8)) {
        Err(e) => assert_eq!(e.message(), "torus geometry mismatch: 3x3 != 8 columns"),
        Ok(_) => panic!("expected a geometry error"),
    }
    match (TopologySpec::Ring { bidirectional: false }).connections_for(&ids(1)) {
        Err(e) => assert_eq!(e.message(), "ring requires at least 2 columns (got 1)"),
        Ok(_) => panic!("expected a too-few-nodes error"),
    }
    match TopologySpec::FullyConnected.connections_for(&[]) {
        Err(e) => assert_eq!(e.message(), "topology requires a non-empty column id list"),
        Ok(_) => panic!("expected an empty-set error"),
    }
}
