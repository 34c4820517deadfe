use ptg::cli::{topology_plan, MeshPlan, MeshTopologyParams, RoutingPolicyKind, TopologyKind};
use ptg::column::{CorticalColumn, DomainSphere};
use ptg::mesh::RoutingPolicy;
use ptg::pack::{materialize_pack, parse_sphere, ColumnPack, ColumnPackEntry};

fn rewire(p: f64) -> u64 {
    if p.is_finite() && (0.0..=1.0).contains(&p) {
        (p * 9_007_199_254_740_992.0).ceil() as u64
    } else {
        u64::MAX
    }
}

fn test_params(topology: TopologyKind, columns: Option<usize>) -> MeshTopologyParams {
    MeshTopologyParams {
        topology,
        columns,
        torus_width: None,
        torus_height: None,
        small_world_degree: 4,
        small_world_rewire_threshold: rewire(0.10),
        small_world_seed: 42,
        column_pack: None,
    }
}

fn plan(p: &MeshTopologyParams) -> Result<Option<MeshPlan>, String> {
    topology_plan(p)
}

#[test]
fn default_topology_yields_no_plan() -> Result<(), String> {
    assert!(plan(&test_params(TopologyKind::Default, None))?.is_none());
    Ok(())
}

#[test]
fn ring_5_has_five_columns_and_five_edges() -> Result<(), String> {
    let plan = plan(&test_params(TopologyKind::Ring, Some(5)))?.ok_or("expected a plan for ring")?;
    assert_eq!(plan.columns.len(), 5);
    assert_eq!(plan.connections.len(), 5, "directed ring: one edge per column");
    assert_eq!(plan.label, "ring");
    Ok(())
}

#[test]
fn ring_bi_4_has_eight_edges() -> Result<(), String> {
    let plan = plan(&test_params(TopologyKind::RingBi, Some(4)))?.ok_or("expected a plan for ring-bi")?;
    assert_eq!(plan.columns.len(), 4);
    assert_eq!(plan.connections.len(), 8, "bidirectional ring: two edges per column");
    Ok(())
}

#[test]
fn ring_bi_3_is_rejected() {
    let res = plan(&test_params(TopologyKind::RingBi, Some(3)));
    assert!(res.is_err(), "ring-bi with n<=3 collapses to fully-connected");
}

#[test]
fn torus_3x3_has_nine_columns_and_thirty_six_edges() -> Result<(), String> {
    let mut p = test_params(TopologyKind::Torus, None);
    p.torus_width = Some(3);
    p.torus_height = Some(3);
    let plan = plan(&p)?.ok_or("expected a plan for torus")?;
    assert_eq!(plan.columns.len(), 9);
    assert_eq!(plan.connections.len(), 36, "9 nodes * 4 cardinal neighbors");
    Ok(())
}

#[test]
fn torus_missing_dimension_is_rejected() {
    let mut p = test_params(TopologyKind::Torus, None);
    p.torus_width = Some(3);
    assert!(plan(&p).is_err());
}

#[test]
fn fully_connected_4_has_twelve_edges() -> Result<(), String> {
    let plan = plan(&test_params(TopologyKind::FullyConnected, Some(4)))?.ok_or("expected a plan")?;
    assert_eq!(plan.columns.len(), 4);
    assert_eq!(plan.connections.len(), 12, "n*(n-1) = 4*3");
    Ok(())
}

#[test]
fn small_world_20_degree_4_has_eighty_edges() -> Result<(), String> {
    let plan = plan(&test_params(TopologyKind::SmallWorld, Some(20)))?.ok_or("expected a plan")?;
    assert_eq!(plan.columns.len(), 20);
    assert_eq!(plan.connections.len(), 80, "20 * degree 4");
    Ok(())
}

#[test]
fn small_world_degree_too_high_is_rejected() {
    let mut p = test_params(TopologyKind::SmallWorld, Some(6));
    p.small_world_degree = 4;
    assert!(plan(&p).is_err());
}

#[test]
fn ring_missing_columns_is_rejected() -> Result<(), String> {
    let msg = match plan(&test_params(TopologyKind::Ring, None)) {
        Err(m) => m,
        Ok(plan) => return Err(format!("expected error, got plan: {plan:?}")),
    };
    assert!(msg.contains("--topology ring"), "got: {msg}");
    Ok(())
}

#[test]
fn small_world_is_deterministic_across_calls() -> Result<(), String> {
    let a = plan(&test_params(TopologyKind::SmallWorld, Some(30)))?;
    let b = plan(&test_params(TopologyKind::SmallWorld, Some(30)))?;
    let (a_conns, b_conns) = match (a, b) {
        (Some(pa), Some(pb)) => (pa.connections, pb.connections),
        _ => return Err("expected plans".to_string()),
    };
    assert_eq!(a_conns, b_conns);
    Ok(())
}

fn pack_of(rows: &[(&str, &str, &str, Option<u8>)]) -> ColumnPack {
    ColumnPack {
        description: None,
        columns: rows
            .iter()
            .map(|(id, sphere, prompt, level)| ColumnPackEntry {
                id: id.to_string(),
                sphere: sphere.to_string(),
                system_prompt: prompt.to_string(),
                level: *level,
            })
            .collect(),
    }
}

#[test]
fn column_pack_default_with_wrong_ids_is_rejected() {
    let pack = materialize_pack(pack_of(&[("CC_X", "Physics", "x", None), ("CC_Y", "Coding", "y", None)]));
    let mut p = test_params(TopologyKind::Default, None);
    p.column_pack = Some(pack);
    let res = plan(&p);
    match res {
        Err(m) => assert_eq!(
            m,
            "--topology default with --column-pack requires exactly these ids \n(order-independent): \
             CC_PHYSICS_01, CC_MATH_01, CC_CODE_01, CC_PSYCH_01\n(pack has: CC_X, CC_Y)"
        ),
        Ok(_) => panic!("pack with non-reference ids + default should error"),
    }
}

#[test]
fn column_pack_default_with_reference_ids_uses_reference_edges() -> Result<(), String> {
    let pack = materialize_pack(pack_of(&[
        ("CC_PSYCH_01", "psych", "p", None),
        ("CC_CODE_01", "code", "c", None),
        ("CC_MATH_01", "math", "m", Some(2)),
        ("CC_PHYSICS_01", "physics", "f", None),
    ]));
    let mut p = test_params(TopologyKind::Default, None);
    p.column_pack = Some(pack);
    let plan = plan(&p)?.ok_or("expected a plan")?;
    assert_eq!(plan.label, "default");
    assert_eq!(plan.connections.len(), 4);
    assert_eq!(plan.levels, vec![None, None, Some(2), None]);
    Ok(())
}

#[test]
fn column_pack_generated_count_mismatch_is_rejected() {
    let pack = materialize_pack(pack_of(&[("CC_A", "Physics", "a", None), ("CC_B", "Coding", "b", None)]));
    let mut p = test_params(TopologyKind::Ring, Some(4));
    p.column_pack = Some(pack);
    match plan(&p) {
        Err(m) => assert_eq!(
            m,
            "--column-pack has 2 column(s) but topology expects 4 \n(derive via --columns or --torus-width/--torus-height)"
        ),
        Ok(_) => panic!("pack count != topology columns should error"),
    }
}

#[test]
fn column_pack_generated_matching_count_yields_plan() -> Result<(), String> {
    let pack = materialize_pack(pack_of(&[
        ("CC_A", "Physics", "a", Some(1)),
        ("CC_B", "Coding", "b", Some(2)),
        ("CC_C", "Mathematics", "c", Some(3)),
    ]));
    let mut p = test_params(TopologyKind::Ring, Some(3));
    p.column_pack = Some(pack);
    let plan = plan(&p)?.ok_or("expected a plan")?;
    assert_eq!(plan.columns.len(), 3, "pack columns should be used");
    assert_eq!(plan.connections.len(), 3, "ring over 3 = 3 edges");
    assert_eq!(plan.levels, vec![Some(1), Some(2), Some(3)]);
    assert_eq!(plan.columns[0].id, "CC_A");
    Ok(())
}

#[test]
fn unreadable_pack_error_comes_after_count_checks() {
    let mut p = test_params(TopologyKind::Ring, None);
    p.column_pack = Some(Err("could not read column pack".to_string()));
    assert_eq!(plan(&p).err(), Some("--topology ring requires --columns".to_string()));
    p.columns = Some(3);
    assert_eq!(plan(&p).err(), Some("could not read column pack".to_string()));
}

#[test]
fn torus_columns_must_match_grid() {
    let mut p = test_params(TopologyKind::Torus, Some(8));
    p.torus_width = Some(3);
    p.torus_height = Some(3);
    assert_eq!(plan(&p).err(), Some("--columns 8 != --torus-width 3 * --torus-height 3 (9)".to_string()));
}

#[test]
fn small_world_guard_names_degree_and_columns() {
    let p = test_params(TopologyKind::SmallWorld, Some(8));
    assert_eq!(
        plan(&p).err(),
        Some("--topology small-world requires --small-world-degree * 2 < --columns \n(got degree 4, columns 8)".to_string())
    );
}

#[test]
fn topology_failure_is_labelled() {
    let mut p = test_params(TopologyKind::SmallWorld, Some(9));
    p.small_world_degree = 3;
    assert_eq!(plan(&p).err(), Some("small-world: degree out of range: must be a positive even integer".to_string()));
}

#[test]
fn kinds_have_flag_names() {
    assert_eq!(TopologyKind::RingBi.kebab(), "ring-bi");
    assert_eq!(TopologyKind::FullyConnected.kebab(), "fully-connected");
    assert_eq!(RoutingPolicyKind::ConfidenceTopK.kebab(), "confidence-top-k");
    assert_eq!(RoutingPolicyKind::Diversity.to_policy(3), RoutingPolicy::DiversityPreserving { k: 3 });
    assert_eq!(RoutingPolicyKind::All.label(2), "all");
    assert_eq!(RoutingPolicyKind::Diversity.label(2), "diversity k=2");
}

#[test]
fn valid_pack_parses_in_order() -> Result<(), String> {
    let cols = materialize_pack(pack_of(&[
        ("  CC_Z  ", "Coding", "z prompt", Some(0)),
        ("CC_A", "  MATHS ", "a prompt", None),
    ]))?;
    assert_eq!(cols.len(), 2);
    assert_eq!(cols[0].0.id, "CC_Z");
    assert_eq!(cols[0].0.sphere, DomainSphere::Coding);
    assert_eq!(cols[0].1, Some(0));
    assert_eq!(cols[1].0.sphere, DomainSphere::Mathematics);
    assert_eq!(cols[1].0.system_prompt, "a prompt");
    Ok(())
}

#[test]
fn pack_errors_are_reported_in_order() {
    assert_eq!(materialize_pack(pack_of(&[])).err(), Some("column pack has no [[columns]] entries".to_string()));
    assert_eq!(
        materialize_pack(pack_of(&[("  ", "Physics", "p", None)])).err(),
        Some("a column has a blank id".to_string())
    );
    assert_eq!(
        materialize_pack(pack_of(&[("A", "Physics", "p", None), (" A", "Physics", "p", None)])).err(),
        Some("duplicate column id: A".to_string())
    );
    assert_eq!(
        materialize_pack(pack_of(&[("A", "Physics", " \n ", None)])).err(),
        Some("column A has a blank system_prompt".to_string())
    );
    assert_eq!(
        materialize_pack(pack_of(&[("A", "Biology", "p", None)])).err(),
        Some("unknown sphere `biology` (expected Physics | Mathematics | Coding | Psychology)".to_string())
    );
}

#[test]
fn sphere_names_are_case_insensitive() {
    assert_eq!(parse_sphere(" Psych "), Ok(DomainSphere::Psychology));
    assert_eq!(parse_sphere("PHYSICS"), Ok(DomainSphere::Physics));
    assert_eq!(parse_sphere("code"), Ok(DomainSphere::Coding));
    assert!(parse_sphere("mathematic").is_err());
}

#[test]
fn plan_columns_default_to_replicated_spheres() -> Result<(), String> {
    let plan = plan(&test_params(TopologyKind::Ring, Some(5)))?.ok_or("expected a plan")?;
    let ids: Vec<&str> = plan.columns.iter().map(|c: &CorticalColumn| c.id.as_str()).collect();
    assert_eq!(ids, vec!["CC_PHYSICS_01", "CC_MATH_01", "CC_CODE_01", "CC_PSYCH_01", "CC_PHYSICS_02"]);
    assert_eq!(plan.levels, vec![None; 5]);
    Ok(())
}

fn require_err<T>(res: Result<T, String>, needle: &str) -> Result<String, String> {
    match res {
        Err(msg) => {
            if !msg.contains(needle) {
                return Err(format!("error missing `{needle}`: {msg}"));
            }
            Ok(msg)
        }
        Ok(_) => Err(format!("expected error containing `{needle}`, got Ok")),
    }
}

#[test]
fn duplicate_ids_rejected() -> Result<(), String> {
    let res = materialize_pack(pack_of(&[("CC_SAME", "Physics", "one", None), ("CC_SAME", "Coding", "two", None)]));
    require_err(res.map(|v| v.len()), "duplicate column id")?;
    Ok(())
}

#[test]
fn blank_prompt_rejected() -> Result<(), String> {
    let res = materialize_pack(pack_of(&[("CC_A", "Physics", "real prompt", None), ("CC_B", "Coding", "   ", None)]));
    require_err(res.map(|v| v.len()), "blank system_prompt")?;
    Ok(())
}

#[test]
fn unknown_sphere_rejected() -> Result<(), String> {
    let res = materialize_pack(pack_of(&[("CC_A", "Biology", "prompt", None)]));
    require_err(res.map(|v| v.len()), "unknown sphere")?;
    Ok(())
}

#[test]
fn empty_pack_rejected() -> Result<(), String> {
    let mut pack = pack_of(&[]);
    pack.description = Some("empty".to_string());
    require_err(materialize_pack(pack).map(|v| v.len()), "no [[columns]]")?;
    Ok(())
}

#[test]
fn level_is_optional() -> Result<(), String> {
    let cols = materialize_pack(pack_of(&[("CC_X", "Coding", "be code", None)]))?;
    assert_eq!(cols.len(), 1);
    assert_eq!(cols[0].1, None);
    Ok(())
}
