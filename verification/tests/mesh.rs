use ptg::column::{replicated_default_columns, Confidence, CorticalColumn, DomainSphere};
use ptg::consensus::{ConvergenceReason, EpochControl};
use ptg::mesh::{
    compose_prompt, default_mesh, mesh_from_columns, mesh_with_topology, CorticalMesh, LateralContextMode,
    LateralSelection, MeshError, RoutedSource, RoutingPolicy,
};
use ptg::topology::{LateralConnection, TopologySpec};

/// The order key of a non-negative confidence.
fn key(c: f32) -> Confidence {
    Confidence { key: c.to_bits() | 0x8000_0000 }
}

fn mesh_with(columns: Vec<CorticalColumn>) -> CorticalMesh {
    let mut mesh = CorticalMesh::new();
    for c in columns {
        assert!(mesh.add_column(c).is_ok(), "test setup: add_column");
    }
    mesh
}

fn source_ids(mesh: &CorticalMesh, id: &str) -> Result<Vec<String>, MeshError> {
    Ok(mesh.get_neighbors(id)?.into_iter().map(|c| c.id).collect())
}

fn column_mut<'a>(mesh: &'a mut CorticalMesh, id: &str) -> Option<&'a mut CorticalColumn> {
    mesh.columns.iter_mut().find(|c| c.id == id)
}

#[test]
fn rejects_duplicate_column() {
    let mut mesh = CorticalMesh::new();
    assert!(mesh.add_column(CorticalColumn::with_defaults("CC_A", DomainSphere::Physics)).is_ok());
    let second = mesh.add_column(CorticalColumn::with_defaults("CC_A", DomainSphere::Physics));
    assert!(matches!(second, Err(MeshError::DuplicateColumn(_))));
}

#[test]
fn rejects_connection_to_unknown_column() {
    let mut mesh = mesh_with(vec![CorticalColumn::with_defaults("CC_A", DomainSphere::Physics)]);
    let result = mesh.establish_lateral_connection("CC_A", "CC_GHOST");
    assert!(matches!(result, Err(MeshError::UnknownColumn(_))));
}

#[test]
fn get_neighbors_returns_connected_columns() -> Result<(), MeshError> {
    let mut mesh = mesh_with(vec![
        CorticalColumn::with_defaults("CC_A", DomainSphere::Physics),
        CorticalColumn::with_defaults("CC_B", DomainSphere::Mathematics),
    ]);
    mesh.establish_lateral_connection("CC_A", "CC_B")?;
    let neighbors = mesh.get_neighbors("CC_A")?;
    assert_eq!(neighbors.len(), 1);
    assert_eq!(neighbors[0].id, "CC_B");
    Ok(())
}

#[test]
fn default_mesh_wiring_is_unchanged() -> Result<(), MeshError> {
    let mesh = default_mesh()?;
    let mut phys = source_ids(&mesh, "CC_PHYSICS_01")?;
    phys.sort();
    assert_eq!(phys, vec!["CC_MATH_01"]);
    let mut math = source_ids(&mesh, "CC_MATH_01")?;
    math.sort();
    assert_eq!(math, vec!["CC_CODE_01", "CC_PHYSICS_01"]);
    let code = source_ids(&mesh, "CC_CODE_01")?;
    assert_eq!(code, vec!["CC_PSYCH_01"]);
    let psych = source_ids(&mesh, "CC_PSYCH_01")?;
    assert!(psych.is_empty(), "PSYCH is the graph sink");
    Ok(())
}

#[test]
fn mesh_from_columns_wires_explicit_edges() -> Result<(), MeshError> {
    let cols = replicated_default_columns(3);
    let conns = vec![
        LateralConnection::new("CC_PHYSICS_01", "CC_MATH_01"),
        LateralConnection::new("CC_PHYSICS_01", "CC_CODE_01"),
    ];
    let mesh = mesh_from_columns(cols, conns)?;
    let mut s = source_ids(&mesh, "CC_PHYSICS_01")?;
    s.sort();
    assert_eq!(s, vec!["CC_CODE_01", "CC_MATH_01"]);
    assert!(source_ids(&mesh, "CC_MATH_01")?.is_empty());
    Ok(())
}

#[test]
fn mesh_with_topology_ring_wires_predecessor() -> Result<(), MeshError> {
    let cols = replicated_default_columns(5);
    let ids: Vec<String> = cols.iter().map(|c| c.id.clone()).collect();
    let mesh = mesh_with_topology(cols, &TopologySpec::Ring { bidirectional: false })?;
    assert_eq!(source_ids(&mesh, &ids[0])?, vec![ids[4].clone()]);
    assert_eq!(source_ids(&mesh, &ids[1])?, vec![ids[0].clone()]);
    Ok(())
}

#[test]
fn mesh_with_topology_torus_gives_four_neighbors() -> Result<(), MeshError> {
    let cols = replicated_default_columns(9);
    let mesh = mesh_with_topology(cols, &TopologySpec::Torus2d { width: 3, height: 3 })?;
    for col in mesh.columns.iter() {
        assert_eq!(source_ids(&mesh, &col.id)?.len(), 4, "every torus node has four cardinal sources");
    }
    Ok(())
}

#[test]
fn mesh_with_topology_fully_connected() -> Result<(), MeshError> {
    let cols = replicated_default_columns(4);
    let mesh = mesh_with_topology(cols, &TopologySpec::FullyConnected)?;
    for col in mesh.columns.iter() {
        assert_eq!(source_ids(&mesh, &col.id)?.len(), 3);
    }
    Ok(())
}

#[test]
fn mesh_with_topology_propagates_geometry_error() {
    let cols = replicated_default_columns(8);
    let res = mesh_with_topology(cols, &TopologySpec::Torus2d { width: 3, height: 3 });
    assert!(matches!(res, Err(MeshError::Topology(_))));
}

fn routed_mesh(listener: &str, neighbors: &[(&str, &str, f32)]) -> Result<CorticalMesh, MeshError> {
    let mut mesh = CorticalMesh::new();
    mesh.add_column(CorticalColumn::with_defaults(listener, DomainSphere::Physics))?;
    for (id, _, _) in neighbors {
        mesh.add_column(CorticalColumn::with_defaults(id, DomainSphere::Mathematics))?;
        mesh.establish_lateral_connection(listener, id)?;
    }
    for (id, pred, conf) in neighbors {
        if let Some(c) = column_mut(&mut mesh, id) {
            c.last_prediction = (*pred).to_string();
            c.last_confidence = key(*conf);
        }
    }
    Ok(mesh)
}

fn routed(sel: LateralSelection) -> Vec<RoutedSource> {
    match sel {
        LateralSelection::Routed(v) => v,
        LateralSelection::DiversityPool { pool, .. } => pool,
    }
}

fn routed_source_ids(sources: &[RoutedSource]) -> Vec<String> {
    let mut v: Vec<String> = sources.iter().map(|s| s.source_id.clone()).collect();
    v.sort();
    v
}

#[test]
fn all_routing_selects_all_non_empty_neighbors() -> Result<(), MeshError> {
    let mut mesh = routed_mesh("CC_L", &[("CC_A", "pred a", 0.5), ("CC_B", "pred b", 0.9), ("CC_C", "", 0.99)])?;
    mesh.routing_policy = RoutingPolicy::All;
    let sources = routed(mesh.select_lateral_sources("CC_L"));
    assert_eq!(routed_source_ids(&sources), vec!["CC_A".to_string(), "CC_B".to_string()]);
    for s in &sources {
        assert_eq!(s.weight, Confidence::unit(), "All weights are 1.0");
    }
    Ok(())
}

#[test]
fn confidence_top_k_selects_highest_confidence_with_deterministic_ties() -> Result<(), MeshError> {
    let mut mesh = routed_mesh("CC_L", &[("CC_B", "pred b", 0.8), ("CC_A", "pred a", 0.8), ("CC_C", "pred c", 0.5)])?;
    mesh.routing_policy = RoutingPolicy::ConfidenceTopK { k: 2 };
    let sources = routed(mesh.select_lateral_sources("CC_L"));
    assert_eq!(routed_source_ids(&sources), vec!["CC_A".to_string(), "CC_B".to_string()]);
    assert!(sources.iter().all(|s| s.weight == s.confidence));
    assert_eq!(sources[0].source_id, "CC_A", "ties broken by id ascending");
    Ok(())
}

#[test]
fn k_zero_selects_no_sources() -> Result<(), MeshError> {
    let mut mesh = routed_mesh("CC_L", &[("CC_A", "pred a", 0.9)])?;
    mesh.routing_policy = RoutingPolicy::DiversityPreserving { k: 0 };
    assert!(mesh.select_lateral_sources("CC_L").is_empty());
    mesh.routing_policy = RoutingPolicy::ConfidenceTopK { k: 0 };
    assert!(mesh.select_lateral_sources("CC_L").is_empty());
    Ok(())
}

#[test]
fn diversity_pool_is_in_anchor_order() -> Result<(), MeshError> {
    let mut mesh = routed_mesh(
        "CC_L",
        &[
            ("CC_ANCHOR", "alpha beta gamma", 0.9),
            ("CC_REDUNDANT", "alpha beta gamma delta", 0.85),
            ("CC_NOVEL", "completely different tokens zeta", 0.6),
        ],
    )?;
    mesh.routing_policy = RoutingPolicy::DiversityPreserving { k: 2 };
    match mesh.select_lateral_sources("CC_L") {
        LateralSelection::DiversityPool { pool, k } => {
            assert_eq!(k, 2);
            let order: Vec<&str> = pool.iter().map(|s| s.source_id.as_str()).collect();
            assert_eq!(order, vec!["CC_ANCHOR", "CC_REDUNDANT", "CC_NOVEL"]);
        }
        LateralSelection::Routed(_) => panic!("expected a diversity pool"),
    }
    Ok(())
}

#[test]
fn fresh_mesh_routes_nothing() -> Result<(), MeshError> {
    let mesh = default_mesh()?;
    for id in ["CC_PHYSICS_01", "CC_MATH_01", "CC_CODE_01", "CC_PSYCH_01"] {
        assert!(mesh.select_lateral_sources(id).is_empty());
    }
    Ok(())
}

#[test]
fn reconnecting_is_idempotent() -> Result<(), MeshError> {
    let mut mesh = default_mesh()?;
    mesh.establish_lateral_connection("CC_PHYSICS_01", "CC_MATH_01")?;
    assert_eq!(source_ids(&mesh, "CC_PHYSICS_01")?, vec!["CC_MATH_01"]);
    Ok(())
}

fn mesh_with_seeded_prediction() -> Result<CorticalMesh, MeshError> {
    let mut mesh = default_mesh()?;
    if let Some(math) = column_mut(&mut mesh, "CC_MATH_01") {
        math.last_prediction = "The system reaches thermal equilibrium at 300K. \
            This continuation is deliberately very long so that the total character \
            count exceeds one hundred and eighty characters and forces the truncation \
            logic to engage properly, with the word elaboration appearing only in \
            the discarded tail portion of the prediction text."
            .to_string();
        math.last_confidence = key(0.82);
    }
    Ok(mesh)
}

/// The lateral context a listener would receive, with weights and
/// confidences rendered to two decimals.
fn context_for(mesh: &CorticalMesh, id: &str) -> String {
    let sources = routed(mesh.select_lateral_sources(id));
    let ids: Vec<String> = sources.iter().map(|s| s.source_id.clone()).collect();
    let weights: Vec<String> = sources.iter().map(|s| format!("{:.2}", value(s.weight.key))).collect();
    let confs: Vec<String> = sources.iter().map(|s| format!("{:.2}", value(s.confidence.key))).collect();
    mesh.lateral_context_text(&ids, &weights, &confs)
}

fn value(key: u32) -> f32 {
    if key & 0x8000_0000 != 0 {
        f32::from_bits(key & 0x7FFF_FFFF)
    } else {
        f32::from_bits(!key)
    }
}

#[test]
fn raw_lateral_context_injects_full_prediction() -> Result<(), MeshError> {
    let mesh = mesh_with_seeded_prediction()?;
    let ctx = context_for(&mesh, "CC_PHYSICS_01");
    assert!(!ctx.is_empty());
    assert!(ctx.contains("Prediction=\""), "raw mode quotes prediction");
    assert!(ctx.contains("elaboration"), "raw mode includes full text");
    Ok(())
}

#[test]
fn structured_lateral_context_never_quotes_full_prediction() -> Result<(), MeshError> {
    let mut mesh = mesh_with_seeded_prediction()?;
    mesh.lateral_context_mode = LateralContextMode::Structured;
    let ctx = context_for(&mesh, "CC_PHYSICS_01");
    assert!(!ctx.is_empty());
    assert!(!ctx.contains("Prediction=\""), "no raw prediction label");
    assert!(!ctx.contains("elaboration"), "truncates the full text");
    assert!(ctx.contains("thermal equilibrium"), "includes the claim");
    assert!(ctx.contains("source=CC_MATH_01"), "tags the source id");
    assert!(ctx.contains("confidence=0.82"), "includes confidence");
    assert!(ctx.contains("Do not quote or copy"), "includes synthesis directive");
    Ok(())
}

#[test]
fn default_lateral_mode_is_raw() -> Result<(), MeshError> {
    let mesh = default_mesh()?;
    assert_eq!(mesh.lateral_context_mode, LateralContextMode::Raw);
    Ok(())
}

#[test]
fn raw_context_line_has_exact_shape() -> Result<(), MeshError> {
    let mut mesh = routed_mesh("CC_L", &[("CC_A", "x", 0.5)])?;
    mesh.routing_policy = RoutingPolicy::All;
    let ctx = context_for(&mesh, "CC_L");
    assert_eq!(ctx, "[LATERAL LAYER UPDATE]\nNeighbor CC_A reports: Prediction=\"x\" (Confidence: 0.50)");
    mesh.routing_policy = RoutingPolicy::ConfidenceTopK { k: 1 };
    let ctx = context_for(&mesh, "CC_L");
    assert_eq!(
        ctx,
        "[LATERAL LAYER UPDATE]\nNeighbor CC_A [route_weight=0.50, confidence=0.50] reports: Prediction=\"x\""
    );
    Ok(())
}

#[test]
fn compose_prompt_contains_sections() {
    let col = CorticalColumn::with_defaults("CC_X", DomainSphere::Physics);
    let prompt = compose_prompt(&col, "INPUT", "LATERAL");
    assert!(prompt.contains("INPUT DATA TO PARSE:"));
    assert!(prompt.contains("LATERAL CONNECTIONS"));
    assert!(prompt.contains("INPUT"));
    assert!(prompt.contains("LATERAL"));
}

#[test]
fn record_tick_updates_only_that_column() -> Result<(), MeshError> {
    let mut mesh = default_mesh()?;
    assert!(mesh.record_column_tick("CC_MATH_01", "1,2,3", "pred", key(0.7)));
    assert!(!mesh.record_column_tick("CC_GHOST", "1,2,3", "pred", key(0.7)));
    let math = mesh.columns.iter().find(|c| c.id == "CC_MATH_01").map(|c| (c.last_prediction.clone(), c.ticks_recorded));
    assert_eq!(math, Some(("pred".to_string(), 1)));
    let phys = mesh.columns.iter().find(|c| c.id == "CC_PHYSICS_01").map(|c| c.ticks_recorded);
    assert_eq!(phys, Some(0));
    Ok(())
}

#[test]
fn sorted_ids_are_ascending() -> Result<(), MeshError> {
    let mesh = default_mesh()?;
    assert_eq!(mesh.column_ids_sorted(), vec!["CC_CODE_01", "CC_MATH_01", "CC_PHYSICS_01", "CC_PSYCH_01"]);
    Ok(())
}

#[test]
fn epoch_stops_on_confidence_first_and_respects_min_ticks() {
    let mut c = EpochControl::new(3, 2);
    assert_eq!(c.begin_tick(), Some(1));
    assert!(c.end_tick(Some(ConvergenceReason::MeanConfidence), None), "no convergence before min_ticks");
    assert_eq!(c.begin_tick(), Some(2));
    assert!(!c.end_tick(Some(ConvergenceReason::ConfidenceDelta), Some(ConvergenceReason::PredictionSimilarity)));
    assert_eq!(c.reason, Some(ConvergenceReason::ConfidenceDelta));
    assert!(c.stabilized);
    assert_eq!(c.ticks_run, 2);
    assert_eq!(c.begin_tick(), None);
}

#[test]
fn epoch_runs_out_of_ticks_without_stabilizing() {
    let mut c = EpochControl::new(2, 1);
    assert_eq!(c.begin_tick(), Some(1));
    assert!(c.end_tick(None, None));
    assert_eq!(c.begin_tick(), Some(2));
    assert!(!c.end_tick(None, None));
    assert!(!c.stabilized);
    assert_eq!(c.reason, None);
    assert_eq!(c.ticks_run, 2);
    assert_eq!(c.begin_tick(), None);
}

#[test]
fn convergence_reasons_describe_themselves() {
    assert_eq!(ConvergenceReason::MeanConfidence.description(), "mean confidence threshold met");
    assert_eq!(ConvergenceReason::PredictionSimilarity.description(), "prediction token-similarity stabilized");
}
