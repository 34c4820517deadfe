//! Command-line planning: the selectable topology and routing kinds, and
//! the resolution of topology flags (plus an optional column pack) into a
//! fully materialized plan of columns and lateral edges.
//!
//! The column pack arrives already read and parsed, as the outcome of that
//! step, so that its errors are reported at the point the plan reaches it.
use vstd::prelude::*;

use crate::column::{ColumnView, CorticalColumn, default_connections, reference_edges, replicated_column,
    replicated_default_columns};
use crate::judge::{is_tally, occurrences, tally};
use crate::mesh::{
    MeshState, MeshFault, RoutingPolicy, build_state, columns_view, ids_of, law_topology_mesh_wiring, sources_of,
    wired_state,
};
use crate::pack::{PackedView, packed_view};
use crate::text::{ascii_lowercase, chars_of, copy_string, decimal, push_chars, push_decimal, push_joined, push_str, str_eq, string_of, to_ascii_lowercase};
use crate::topology::{
    EdgeView, LateralConnection, TopologyFault, TopologySpec, edges_view, fault_message, ids_view,
    topology_connections,
};

verus! {

/// Selectable lateral topologies.
#[derive(Debug, Clone, Copy, PartialEq, Eq)]
pub enum TopologyKind {
    /// The named four-column reference graph.
    Default,
    /// Directed cycle: each column listens to its predecessor.
    Ring,
    /// Bidirectional ring (needs at least four columns).
    RingBi,
    /// 2-D wraparound grid: four cardinal neighbors each.
    Torus,
    /// Every column listens to every other.
    FullyConnected,
    /// Seeded Watts-Strogatz small world.
    SmallWorld,
}

/// The flag value of a topology kind.
pub open spec fn kind_text(k: TopologyKind) -> Seq<char> {
    match k {
        TopologyKind::Default => "default"@,
        TopologyKind::Ring => "ring"@,
        TopologyKind::RingBi => "ring-bi"@,
        TopologyKind::Torus => "torus"@,
        TopologyKind::FullyConnected => "fully-connected"@,
        TopologyKind::SmallWorld => "small-world"@,
    }
}

impl TopologyKind {
    /// The kebab-case flag value the user would type.
    pub fn kebab(self) -> (s: &'static str)
        ensures
            s@ == kind_text(self),
    {
        match self {
            TopologyKind::Default => "default",
            TopologyKind::Ring => "ring",
            TopologyKind::RingBi => "ring-bi",
            TopologyKind::Torus => "torus",
            TopologyKind::FullyConnected => "fully-connected",
            TopologyKind::SmallWorld => "small-world",
        }
    }
}

/// Selectable lateral routing policies.
#[derive(Debug, Clone, Copy, PartialEq, Eq)]
pub enum RoutingPolicyKind {
    /// Every neighbor.
    All,
    /// The `k` highest-confidence neighbors.
    ConfidenceTopK,
    /// Diversity-preserving selection of up to `k` neighbors.
    Diversity,
}

/// The flag value of a routing kind.
pub open spec fn routing_text(k: RoutingPolicyKind) -> Seq<char> {
    match k {
        RoutingPolicyKind::All => "all"@,
        RoutingPolicyKind::ConfidenceTopK => "confidence-top-k"@,
        RoutingPolicyKind::Diversity => "diversity"@,
    }
}

impl RoutingPolicyKind {
    /// The routing policy with budget `k` (ignored by `All`).
    pub fn to_policy(self, k: usize) -> (p: RoutingPolicy)
        ensures
            p == match self {
                RoutingPolicyKind::All => RoutingPolicy::All,
                RoutingPolicyKind::ConfidenceTopK => RoutingPolicy::ConfidenceTopK { k },
                RoutingPolicyKind::Diversity => RoutingPolicy::DiversityPreserving { k },
            },
    {
        match self {
            RoutingPolicyKind::All => RoutingPolicy::All,
            RoutingPolicyKind::ConfidenceTopK => RoutingPolicy::ConfidenceTopK { k },
            RoutingPolicyKind::Diversity => RoutingPolicy::DiversityPreserving { k },
        }
    }

    /// The kebab-case flag value the user would type.
    pub fn kebab(self) -> (s: &'static str)
        ensures
            s@ == routing_text(self),
    {
        match self {
            RoutingPolicyKind::All => "all",
            RoutingPolicyKind::ConfidenceTopK => "confidence-top-k",
            RoutingPolicyKind::Diversity => "diversity",
        }
    }

    /// The routing line of a plan: the flag value, followed by ` k=<k>`
    /// for the budgeted policies.
    pub fn label(self, k: usize) -> (s: String)
        ensures
            s@ == match self {
                RoutingPolicyKind::All => routing_text(self),
                _ => routing_text(self) + " k="@ + decimal(k as nat),
            },
    {
        let mut v: Vec<char> = Vec::new();
        push_str(&mut v, self.kebab());
        match self {
            RoutingPolicyKind::All => {},
            _ => {
                push_str(&mut v, " k=");
                push_decimal(&mut v, k as u64);
            },
        }
        string_of(&v)
    }
}

/// Resolved topology input.
#[derive(Debug)]
pub struct MeshTopologyParams {
    /// Topology family (`Default`: the named reference graph).
    pub topology: TopologyKind,
    /// Number of columns for a generated topology.
    pub columns: Option<usize>,
    /// Torus grid width (required for `Torus`).
    pub torus_width: Option<usize>,
    /// Torus grid height (required for `Torus`).
    pub torus_height: Option<usize>,
    /// Small-world ring-lattice out-degree (even).
    pub small_world_degree: usize,
    /// Small-world rewire probability, as `ceil(p * 2^53)` (see
    /// [`TopologySpec::SmallWorld`]).
    pub small_world_rewire_threshold: u64,
    /// Small-world seed.
    pub small_world_seed: u64,
    /// The outcome of reading an explicit column pack, if one was given:
    /// its `(column, level)` pairs, or the message reading it failed with.
    pub column_pack: Option<Result<Vec<(CorticalColumn, Option<u8>)>, String>>,
}

/// A fully materialized topology plan.
#[derive(Debug)]
pub struct MeshPlan {
    /// The columns, in positional order.
    pub columns: Vec<CorticalColumn>,
    /// The lateral edges (the listener receives the source).
    pub connections: Vec<LateralConnection>,
    /// Optional abstraction level per column (parallel to `columns`).
    pub levels: Vec<Option<u8>>,
    /// Human-readable topology label.
    pub label: String,
}

/// `(columns, edges, levels, label)`.
pub type PlanView = (Seq<ColumnView>, Seq<EdgeView>, Seq<Option<u8>>, Seq<char>);

impl View for MeshPlan {
    type V = PlanView;

    open spec fn view(&self) -> PlanView {
        (columns_view(self.columns@), edges_view(self.connections@), self.levels@, self.label@)
    }
}

/// The pack outcome of the parameters, by views.
pub open spec fn pack_view(p: MeshTopologyParams) -> Option<Result<Seq<PackedView>, Seq<char>>> {
    match p.column_pack {
        None => None,
        Some(Ok(v)) => Some(Ok(packed_view(v@))),
        Some(Err(m)) => Some(Err(m@)),
    }
}

/// The four named ids of the reference mesh.
pub open spec fn reference_ids() -> Seq<Seq<char>> {
    seq!["CC_PHYSICS_01"@, "CC_MATH_01"@, "CC_CODE_01"@, "CC_PSYCH_01"@]
}

/// The four named ids of the reference mesh.
pub fn expected_default_ids() -> (v: Vec<&'static str>)
    ensures
        v@.len() == 4,
        forall|k: int| 0 <= k < 4 ==> (#[trigger] v@[k])@ == reference_ids()[k],
{
    let mut v: Vec<&'static str> = Vec::new();
    v.push("CC_PHYSICS_01");
    v.push("CC_MATH_01");
    v.push("CC_CODE_01");
    v.push("CC_PSYCH_01");
    v
}

/// The ids are exactly the four reference ids, each once, in any order.
pub open spec fn is_reference_id_set(have: Seq<Seq<char>>) -> bool {
    &&& have.len() == 4
    &&& forall|i: int| 0 <= i < 4 ==> reference_ids().contains(#[trigger] have[i])
    &&& forall|i: int, j: int| 0 <= i < j < 4 ==> have[i] != have[j]
}

/// The message refusing a default-topology pack whose ids are `have`.
pub open spec fn default_pack_message(have: Seq<Seq<char>>) -> Seq<char> {
    "--topology default with --column-pack requires exactly these ids \n(order-independent): "@
        + "CC_PHYSICS_01, CC_MATH_01, CC_CODE_01, CC_PSYCH_01"@ + "\n(pack has: "@ + crate::text::join(have, ", "@)
        + ")"@
}

/// Whether `x` is one of the reference ids.
fn is_reference_id(x: &str) -> (r: bool)
    ensures
        r == reference_ids().contains(x@),
{
    let want = expected_default_ids();
    let mut i: usize = 0;
    while i < want.len()
        invariant
            0 <= i <= 4,
            want@.len() == 4,
            forall|k: int| 0 <= k < 4 ==> (#[trigger] want@[k])@ == reference_ids()[k],
            forall|k: int| 0 <= k < i ==> reference_ids()[k] != x@,
        decreases 4 - i,
    {
        if str_eq(want[i], x) {
            assert(reference_ids()[i as int] == x@);
            return true;
        }
        i = i + 1;
    }
    false
}

/// Check that a pack reproduces the reference graph's ids (in any order).
pub fn validate_default_pack_ids(columns: &Vec<CorticalColumn>) -> (r: Result<(), String>)
    ensures
        match r {
            Ok(()) => is_reference_id_set(ids_of(columns_view(columns@))),
            Err(m) => !is_reference_id_set(ids_of(columns_view(columns@))) && m@ == default_pack_message(
                ids_of(columns_view(columns@)),
            ),
        },
{
    let ghost have = ids_of(columns_view(columns@));
    let mut ok = columns.len() == 4;
    if ok {
        let mut i: usize = 0;
        while i < 4
            invariant
                columns@.len() == 4,
                have == ids_of(columns_view(columns@)),
                0 <= i <= 4,
                ok ==> forall|k: int| 0 <= k < i ==> reference_ids().contains(#[trigger] have[k]),
                ok ==> forall|a: int, b: int| 0 <= a < b < i ==> have[a] != have[b],
                !ok ==> !is_reference_id_set(have),
            decreases 4 - i,
        {
            if ok {
                assert(have[i as int] == columns@[i as int].id@);
                if !is_reference_id(columns[i].id.as_str()) {
                    ok = false;
                    assert(!reference_ids().contains(have[i as int]));
                } else {
                    let mut j: usize = 0;
                    while j < i
                        invariant
                            columns@.len() == 4,
                            have == ids_of(columns_view(columns@)),
                            0 <= j <= i < 4,
                            ok ==> forall|b: int| 0 <= b < j ==> have[b] != have[i as int],
                            !ok ==> !is_reference_id_set(have),
                        decreases i - j,
                    {
                        if ok && str_eq(columns[j].id.as_str(), columns[i].id.as_str()) {
                            ok = false;
                            assert(have[j as int] == columns@[j as int].id@);
                            assert(have[i as int] == columns@[i as int].id@);
                            assert(have[j as int] == have[i as int]);
                        }
                        j = j + 1;
                    }
                }
            }
            i = i + 1;
        }
    }
    if ok {
        return Ok(());
    }
    let mut ids: Vec<String> = Vec::new();
    let mut k: usize = 0;
    while k < columns.len()
        invariant
            0 <= k <= columns@.len(),
            have == ids_of(columns_view(columns@)),
            ids@.map_values(|s: String| s@) == have.take(k as int),
        decreases columns@.len() - k,
    {
        let ghost before = ids@;
        ids.push(crate::text::copy_string(&columns[k].id));
        assert(ids@.map_values(|s: String| s@) =~= before.map_values(|s: String| s@).push(have[k as int]));
        assert(have.take(k + 1) =~= have.take(k as int).push(have[k as int]));
        k = k + 1;
    }
    assert(have.take(k as int) =~= have);
    let mut m: Vec<char> = Vec::new();
    push_str(&mut m, "--topology default with --column-pack requires exactly these ids \n(order-independent): ");
    push_str(&mut m, "CC_PHYSICS_01, CC_MATH_01, CC_CODE_01, CC_PSYCH_01");
    push_str(&mut m, "\n(pack has: ");
    push_joined(&mut m, &ids, ", ");
    push_str(&mut m, ")");
    Err(string_of(&m))
}

/// The reference edges as connections (the listener receives the source).
pub fn default_reference_edges() -> (v: Vec<LateralConnection>)
    ensures
        edges_view(v@) == reference_edges(),
{
    let pairs = default_connections();
    let mut v: Vec<LateralConnection> = Vec::new();
    let mut j: usize = 0;
    while j < pairs.len()
        invariant
            pairs@.len() == 4,
            forall|k: int| 0 <= k < 4 ==> ((#[trigger] pairs@[k]).0@, pairs@[k].1@) == reference_edges()[k],
            0 <= j <= 4,
            edges_view(v@) == reference_edges().take(j as int),
        decreases 4 - j,
    {
        let ghost before = v@;
        v.push(LateralConnection::new(pairs[j].0, pairs[j].1));
        assert(edges_view(v@) =~= edges_view(before).push(reference_edges()[j as int]));
        assert(reference_edges().take(j + 1) =~= reference_edges().take(j as int).push(reference_edges()[j as int]));
        j = j + 1;
    }
    assert(reference_edges().take(4) =~= reference_edges());
    v
}

/// The column count a generated topology asks for: `--columns`, or for a
/// torus the grid's `width * height` (which `--columns`, if given, must
/// equal).
pub open spec fn resolve_columns_result(p: MeshTopologyParams) -> Result<usize, Seq<char>> {
    if p.topology == TopologyKind::Torus {
        match p.torus_width {
            None => Err("--topology torus requires --torus-width"@),
            Some(w) => match p.torus_height {
                None => Err("--topology torus requires --torus-height"@),
                Some(h) => if w * h > usize::MAX {
                    Err("--torus-width * --torus-height overflows usize"@)
                } else {
                    let d = (w * h) as usize;
                    match p.columns {
                        Some(r) => if r != d {
                            Err("--columns "@ + decimal(r as nat) + " != --torus-width "@ + decimal(w as nat)
                                + " * --torus-height "@ + decimal(h as nat) + " ("@ + decimal(d as nat) + ")"@)
                        } else {
                            Ok(d)
                        },
                        None => Ok(d),
                    }
                },
            },
        }
    } else {
        match p.columns {
            Some(n) => Ok(n),
            None => Err("--topology "@ + kind_text(p.topology) + " requires --columns"@),
        }
    }
}

/// Resolve the column count of a generated topology.
pub fn resolve_columns(p: &MeshTopologyParams) -> (r: Result<usize, String>)
    ensures
        match r {
            Ok(n) => resolve_columns_result(*p) == Ok::<usize, Seq<char>>(n),
            Err(m) => resolve_columns_result(*p) == Err::<usize, Seq<char>>(m@),
        },
{
    match p.topology {
        TopologyKind::Torus => {
            let w = match p.torus_width {
                Some(w) => w,
                None => {
                    let mut m: Vec<char> = Vec::new();
                    push_str(&mut m, "--topology torus requires --torus-width");
                    return Err(string_of(&m));
                },
            };
            let h = match p.torus_height {
                Some(h) => h,
                None => {
                    let mut m: Vec<char> = Vec::new();
                    push_str(&mut m, "--topology torus requires --torus-height");
                    return Err(string_of(&m));
                },
            };
            let derived = match w.checked_mul(h) {
                Some(d) => d,
                None => {
                    let mut m: Vec<char> = Vec::new();
                    push_str(&mut m, "--torus-width * --torus-height overflows usize");
                    return Err(string_of(&m));
                },
            };
            match p.columns {
                Some(requested) => {
                    if requested != derived {
                        let mut m: Vec<char> = Vec::new();
                        push_str(&mut m, "--columns ");
                        push_decimal(&mut m, requested as u64);
                        push_str(&mut m, " != --torus-width ");
                        push_decimal(&mut m, w as u64);
                        push_str(&mut m, " * --torus-height ");
                        push_decimal(&mut m, h as u64);
                        push_str(&mut m, " (");
                        push_decimal(&mut m, derived as u64);
                        push_str(&mut m, ")");
                        return Err(string_of(&m));
                    }
                },
                None => {},
            }
            Ok(derived)
        },
        _ => match p.columns {
            Some(n) => Ok(n),
            None => {
                let mut m: Vec<char> = Vec::new();
                push_str(&mut m, "--topology ");
                push_str(&mut m, p.topology.kebab());
                push_str(&mut m, " requires --columns");
                Err(string_of(&m))
            },
        },
    }
}

/// The column-count guard of a generated topology, if it refuses `n`
/// columns.
pub open spec fn size_guard(t: TopologyKind, n: usize, degree: usize) -> Option<Seq<char>> {
    match t {
        TopologyKind::Ring => if n < 2 {
            Some("--topology ring requires --columns >= 2"@)
        } else {
            None
        },
        TopologyKind::RingBi => if n < 4 {
            Some("--topology ring-bi requires --columns >= 4 (else it == fully-connected)"@)
        } else {
            None
        },
        TopologyKind::FullyConnected => if n < 2 {
            Some("--topology fully-connected requires --columns >= 2"@)
        } else {
            None
        },
        TopologyKind::SmallWorld => if degree * 2 >= n {
            Some("--topology small-world requires --small-world-degree * 2 < --columns \n(got degree "@
                + decimal(degree as nat) + ", columns "@ + decimal(n as nat) + ")"@)
        } else {
            None
        },
        _ => None,
    }
}

/// The topology a generated kind builds, with its label.
pub open spec fn kind_spec(p: MeshTopologyParams) -> (TopologySpec, Seq<char>) {
    match p.topology {
        TopologyKind::Ring => (TopologySpec::Ring { bidirectional: false }, "ring"@),
        TopologyKind::RingBi => (TopologySpec::Ring { bidirectional: true }, "ring-bi"@),
        TopologyKind::Torus => (
            TopologySpec::Torus2d {
                width: match p.torus_width {
                    Some(w) => w,
                    None => 0,
                },
                height: match p.torus_height {
                    Some(h) => h,
                    None => 0,
                },
            },
            "torus"@,
        ),
        TopologyKind::FullyConnected => (TopologySpec::FullyConnected, "fully-connected"@),
        _ => (
            TopologySpec::SmallWorld {
                degree: p.small_world_degree,
                rewire_threshold: p.small_world_rewire_threshold,
                seed: p.small_world_seed,
            },
            "small-world"@,
        ),
    }
}

/// The columns and levels of a pack.
pub open spec fn pack_columns(pk: Seq<PackedView>) -> Seq<ColumnView> {
    pk.map_values(|x: PackedView| x.0)
}

/// The levels of a pack.
pub open spec fn pack_levels(pk: Seq<PackedView>) -> Seq<Option<u8>> {
    pk.map_values(|x: PackedView| x.1)
}

/// The columns a generated topology of `n` columns is built over: the
/// pack's (which must hold exactly `n`), or the `n` replicated reference
/// columns without levels.
pub open spec fn plan_columns(p: MeshTopologyParams, n: usize) -> Result<(Seq<ColumnView>, Seq<Option<u8>>), Seq<char>> {
    match pack_view(p) {
        Some(Err(e)) => Err(e),
        Some(Ok(pk)) => if pk.len() != n {
            Err("--column-pack has "@ + decimal(pk.len()) + " column(s) but topology expects "@ + decimal(n as nat)
                + " \n(derive via --columns or --torus-width/--torus-height)"@)
        } else {
            Ok((pack_columns(pk), pack_levels(pk)))
        },
        None => Ok((Seq::new(n as nat, |k: int| replicated_column(k)), Seq::new(n as nat, |k: int| None::<u8>))),
    }
}

/// Resolving the parameters into a plan. The default topology yields no
/// plan (the reference mesh is used) unless a pack is given, which must
/// then hold exactly the reference ids and is wired like the reference
/// mesh. A generated topology resolves its column count, checks it, takes
/// its columns, and materializes over their ids; the first failure is
/// reported.
pub open spec fn plan_result(p: MeshTopologyParams) -> Result<Option<PlanView>, Seq<char>> {
    if p.topology == TopologyKind::Default {
        match pack_view(p) {
            None => Ok(None),
            Some(Err(e)) => Err(e),
            Some(Ok(pk)) => {
                let cols = pack_columns(pk);
                if !is_reference_id_set(ids_of(cols)) {
                    Err(default_pack_message(ids_of(cols)))
                } else {
                    Ok(Some((cols, reference_edges(), pack_levels(pk), "default"@)))
                }
            },
        }
    } else {
        match resolve_columns_result(p) {
            Err(e) => Err(e),
            Ok(n) => match size_guard(p.topology, n, p.small_world_degree) {
                Some(e) => Err(e),
                None => match plan_columns(p, n) {
                    Err(e) => Err(e),
                    Ok((cols, levels)) => {
                        let (t, label) = kind_spec(p);
                        match topology_connections(t, ids_of(cols)) {
                            Err(f) => Err(label + ": "@ + fault_message(f)),
                            Ok(e) => Ok(Some((cols, e, levels, label))),
                        }
                    },
                },
            },
        }
    }
}

/// Split a pack into its columns and levels.
fn unzip_pack(pack: &Vec<(CorticalColumn, Option<u8>)>) -> (r: (Vec<CorticalColumn>, Vec<Option<u8>>))
    ensures
        columns_view(r.0@) == pack_columns(packed_view(pack@)),
        r.1@ == pack_levels(packed_view(pack@)),
{
    let ghost pk = packed_view(pack@);
    let mut cols: Vec<CorticalColumn> = Vec::new();
    let mut levels: Vec<Option<u8>> = Vec::new();
    let mut j: usize = 0;
    while j < pack.len()
        invariant
            0 <= j <= pack@.len(),
            pk == packed_view(pack@),
            columns_view(cols@) == pack_columns(pk).take(j as int),
            levels@ == pack_levels(pk).take(j as int),
        decreases pack@.len() - j,
    {
        let ghost (bc, bl) = (cols@, levels@);
        cols.push(pack[j].0.duplicate());
        levels.push(pack[j].1);
        assert(columns_view(cols@) =~= columns_view(bc).push(pk[j as int].0));
        assert(pack_columns(pk).take(j + 1) =~= pack_columns(pk).take(j as int).push(pk[j as int].0));
        assert(levels@ =~= bl.push(pk[j as int].1));
        assert(pack_levels(pk).take(j + 1) =~= pack_levels(pk).take(j as int).push(pk[j as int].1));
        j = j + 1;
    }
    assert(pack_columns(pk).take(j as int) =~= pack_columns(pk));
    assert(pack_levels(pk).take(j as int) =~= pack_levels(pk));
    (cols, levels)
}

/// Resolve topology parameters into a plan: `Ok(None)` for the default
/// topology without a pack (use the reference mesh), otherwise the columns,
/// edges, levels and label.
pub fn topology_plan(p: &MeshTopologyParams) -> (r: Result<Option<MeshPlan>, String>)
    requires
        p.topology == TopologyKind::SmallWorld ==> p.small_world_degree * 2 <= usize::MAX,
    ensures
        match r {
            Ok(None) => plan_result(*p) == Ok::<Option<PlanView>, Seq<char>>(None),
            Ok(Some(plan)) => plan_result(*p) == Ok::<Option<PlanView>, Seq<char>>(Some(plan@)),
            Err(m) => plan_result(*p) == Err::<Option<PlanView>, Seq<char>>(m@),
        },
{
    if let TopologyKind::Default = p.topology {
        return match &p.column_pack {
            None => Ok(None),
            Some(Err(e)) => Err(crate::text::copy_string(e)),
            Some(Ok(pack)) => {
                let (columns, levels) = unzip_pack(pack);
                validate_default_pack_ids(&columns)?;
                let connections = default_reference_edges();
                let mut label: Vec<char> = Vec::new();
                push_str(&mut label, "default");
                Ok(Some(MeshPlan { columns, connections, levels, label: string_of(&label) }))
            },
        };
    }
    let n = resolve_columns(p)?;
    let guard = match p.topology {
        TopologyKind::Ring => n < 2,
        TopologyKind::RingBi => n < 4,
        TopologyKind::FullyConnected => n < 2,
        TopologyKind::SmallWorld => p.small_world_degree * 2 >= n,
        _ => false,
    };
    if guard {
        let mut m: Vec<char> = Vec::new();
        match p.topology {
            TopologyKind::Ring => push_str(&mut m, "--topology ring requires --columns >= 2"),
            TopologyKind::RingBi => push_str(&mut m, "--topology ring-bi requires --columns >= 4 (else it == fully-connected)"),
            TopologyKind::FullyConnected => push_str(&mut m, "--topology fully-connected requires --columns >= 2"),
            _ => {
                push_str(&mut m, "--topology small-world requires --small-world-degree * 2 < --columns \n(got degree ");
                push_decimal(&mut m, p.small_world_degree as u64);
                push_str(&mut m, ", columns ");
                push_decimal(&mut m, n as u64);
                push_str(&mut m, ")");
            },
        }
        return Err(string_of(&m));
    }
    let (columns, levels) = match &p.column_pack {
        Some(Err(e)) => {
            return Err(crate::text::copy_string(e));
        },
        Some(Ok(pack)) => {
            if pack.len() != n {
                let mut m: Vec<char> = Vec::new();
                push_str(&mut m, "--column-pack has ");
                push_decimal(&mut m, pack.len() as u64);
                push_str(&mut m, " column(s) but topology expects ");
                push_decimal(&mut m, n as u64);
                push_str(&mut m, " \n(derive via --columns or --torus-width/--torus-height)");
                return Err(string_of(&m));
            }
            unzip_pack(pack)
        },
        None => {
            let cols = replicated_default_columns(n);
            let mut levels: Vec<Option<u8>> = Vec::new();
            let mut j: usize = 0;
            while j < n
                invariant
                    0 <= j <= n,
                    levels@ == Seq::new(j as nat, |k: int| None::<u8>),
                decreases n - j,
            {
                levels.push(None);
                j = j + 1;
                assert(levels@ =~= Seq::new(j as nat, |k: int| None::<u8>));
            }
            assert(columns_view(cols@) =~= Seq::new(n as nat, |k: int| replicated_column(k)));
            (cols, levels)
        },
    };
    let ghost cv = columns_view(columns@);
    let mut ids: Vec<String> = Vec::new();
    let mut j: usize = 0;
    while j < columns.len()
        invariant
            0 <= j <= columns@.len(),
            cv == columns_view(columns@),
            ids_view(ids@) == ids_of(cv).take(j as int),
        decreases columns@.len() - j,
    {
        let ghost before = ids@;
        ids.push(crate::text::copy_string(&columns[j].id));
        assert(ids_view(ids@) =~= ids_view(before).push(cv[j as int].id));
        assert(ids_of(cv).take(j + 1) =~= ids_of(cv).take(j as int).push(cv[j as int].id));
        j = j + 1;
    }
    assert(ids_of(cv).take(j as int) =~= ids_of(cv));
    let (spec, label) = match p.topology {
        TopologyKind::Ring => (TopologySpec::Ring { bidirectional: false }, "ring"),
        TopologyKind::RingBi => (TopologySpec::Ring { bidirectional: true }, "ring-bi"),
        TopologyKind::Torus => {
            let w = match p.torus_width {
                Some(w) => w,
                None => 0,
            };
            let h = match p.torus_height {
                Some(h) => h,
                None => 0,
            };
            (TopologySpec::Torus2d { width: w, height: h }, "torus")
        },
        TopologyKind::FullyConnected => (TopologySpec::FullyConnected, "fully-connected"),
        _ => (
            TopologySpec::SmallWorld {
                degree: p.small_world_degree,
                rewire_threshold: p.small_world_rewire_threshold,
                seed: p.small_world_seed,
            },
            "small-world",
        ),
    };
    assert((spec, label@) == kind_spec(*p));
    let connections = match spec.connections_for(ids.as_slice()) {
        Ok(c) => c,
        Err(e) => {
            let mut m: Vec<char> = Vec::new();
            push_str(&mut m, label);
            push_str(&mut m, ": ");
            push_str(&mut m, e.message().as_str());
            return Err(string_of(&m));
        },
    };
    let mut lv: Vec<char> = Vec::new();
    push_str(&mut lv, label);
    Ok(Some(MeshPlan { columns, connections, levels, label: string_of(&lv) }))
}

/// Planning is deterministic: parameter sets that agree on every flag and
/// on the column pack's content give the same plan, or the same error; so
/// repeated calls of [`topology_plan`] agree.
pub proof fn law_plan_deterministic(p: MeshTopologyParams, q: MeshTopologyParams)
    requires
        p.topology == q.topology,
        p.columns == q.columns,
        p.torus_width == q.torus_width,
        p.torus_height == q.torus_height,
        p.small_world_degree == q.small_world_degree,
        p.small_world_rewire_threshold == q.small_world_rewire_threshold,
        p.small_world_seed == q.small_world_seed,
        pack_view(p) == pack_view(q),
    ensures
        plan_result(p) == plan_result(q),
{
    assert(resolve_columns_result(p) == resolve_columns_result(q));
    assert(kind_spec(p) == kind_spec(q));
    assert(forall|n: usize| plan_columns(p, n) == plan_columns(q, n));
}

/// Every generated plan builds into a mesh: adding its columns and then
/// its edges succeeds, and each column listens to exactly the sources its
/// edges give it, in edge order.
pub proof fn law_generated_plan_builds(p: MeshTopologyParams)
    requires
        p.topology != TopologyKind::Default,
        plan_result(p) matches Ok(Some(pv)),
    ensures
        ({
            let pv = plan_result(p)->Ok_0->Some_0;
            build_state(pv.0, pv.1) == Ok::<MeshState, MeshFault>(wired_state(pv.0, pv.1))
        }),
{
    let n = resolve_columns_result(p)->Ok_0;
    let (cols, levels) = plan_columns(p, n)->Ok_0;
    let (t, label) = kind_spec(p);
    law_topology_mesh_wiring(cols, t);
}

/// The resolution hint of image parts.
#[derive(Debug, Clone, Copy, PartialEq, Eq)]
pub enum ImageDetail {
    Low,
    High,
    Auto,
}

/// The wire form of a resolution hint.
pub open spec fn detail_text(d: ImageDetail) -> Seq<char> {
    match d {
        ImageDetail::Low => "low"@,
        ImageDetail::High => "high"@,
        ImageDetail::Auto => "auto"@,
    }
}

impl ImageDetail {
    /// The hint as the request carries it: `low`, `high` or `auto`.
    pub fn as_str(self) -> (s: &'static str)
        ensures
            s@ == detail_text(self),
    {
        match self {
            ImageDetail::Low => "low",
            ImageDetail::High => "high",
            ImageDetail::Auto => "auto",
        }
    }
}

/// Parsing a resolution hint, ASCII-case-insensitively.
pub open spec fn detail_result(s: Seq<char>) -> Result<ImageDetail, Seq<char>> {
    let l = ascii_lowercase(s);
    if l == "low"@ {
        Ok(ImageDetail::Low)
    } else if l == "high"@ {
        Ok(ImageDetail::High)
    } else if l == "auto"@ {
        Ok(ImageDetail::Auto)
    } else {
        Err("invalid --image-detail `"@ + l + "` (low|high|auto)"@)
    }
}

fn chars_is(v: &Vec<char>, s: &str) -> (r: bool)
    ensures
        r == (v@ == s@),
{
    let w = chars_of(s);
    if v.len() != w.len() {
        return false;
    }
    let mut i: usize = 0;
    while i < v.len()
        invariant
            0 <= i <= v@.len(),
            v@.len() == w@.len(),
            w@ == s@,
            forall|j: int| 0 <= j < i ==> v@[j] == w@[j],
        decreases v@.len() - i,
    {
        if v[i] != w[i] {
            return false;
        }
        i = i + 1;
    }
    assert(v@ =~= w@);
    true
}

/// Parse an image resolution hint: `low`, `high` or `auto`, in any ASCII
/// case.
pub fn parse_detail(s: &str) -> (r: Result<ImageDetail, String>)
    ensures
        match r {
            Ok(d) => detail_result(s@) == Ok::<ImageDetail, Seq<char>>(d),
            Err(m) => detail_result(s@) == Err::<ImageDetail, Seq<char>>(m@),
        },
{
    let l = to_ascii_lowercase(&chars_of(s));
    if chars_is(&l, "low") {
        Ok(ImageDetail::Low)
    } else if chars_is(&l, "high") {
        Ok(ImageDetail::High)
    } else if chars_is(&l, "auto") {
        Ok(ImageDetail::Auto)
    } else {
        let mut m: Vec<char> = Vec::new();
        push_str(&mut m, "invalid --image-detail `");
        push_chars(&mut m, &l);
        push_str(&mut m, "` (low|high|auto)");
        Err(string_of(&m))
    }
}

/// The listeners of the edges, in edge order.
pub open spec fn listeners(e: Seq<EdgeView>) -> Seq<Seq<char>> {
    e.map_values(|x: EdgeView| x.0)
}

/// The wiring of a plan for display: each listener once, in ascending
/// order, with its sources tallied in ascending order.
pub fn edges_by_listener(connections: &Vec<LateralConnection>) -> (r: Vec<(String, Vec<(String, usize)>)>)
    ensures
        is_tally(
            listeners(edges_view(connections@)),
            r@.map_values(|x: (String, Vec<(String, usize)>)| (x.0@, sources_of(edges_view(connections@), x.0@).len())),
        ),
        forall|i: int| 0 <= i < r@.len() ==> is_tally(
            sources_of(edges_view(connections@), (#[trigger] r@[i]).0@),
            r@[i].1@.map_values(|y: (String, usize)| (y.0@, y.1 as nat)),
        ),
{
    let ghost ev = edges_view(connections@);
    let mut names: Vec<String> = Vec::new();
    let mut j: usize = 0;
    while j < connections.len()
        invariant
            0 <= j <= connections@.len(),
            ev == edges_view(connections@),
            names@.map_values(|s: String| s@) == listeners(ev).take(j as int),
        decreases connections@.len() - j,
    {
        let ghost before = names@;
        names.push(copy_string(&connections[j].listener_id));
        assert(names@.map_values(|s: String| s@) =~= before.map_values(|s: String| s@).push(ev[j as int].0));
        assert(listeners(ev).take(j + 1) =~= listeners(ev).take(j as int).push(ev[j as int].0));
        j = j + 1;
    }
    assert(listeners(ev).take(j as int) =~= listeners(ev));
    let keys = tally(&names);
    let mut r: Vec<(String, Vec<(String, usize)>)> = Vec::new();
    let mut k: usize = 0;
    while k < keys.len()
        invariant
            0 <= k <= keys@.len(),
            ev == edges_view(connections@),
            is_tally(listeners(ev), keys@.map_values(|x: (String, usize)| (x.0@, x.1 as nat))),
            r@.len() == k,
            forall|i: int| 0 <= i < k ==> (#[trigger] r@[i]).0@ == keys@[i].0@,
            forall|i: int| 0 <= i < k ==> is_tally(
                sources_of(ev, (#[trigger] r@[i]).0@),
                r@[i].1@.map_values(|y: (String, usize)| (y.0@, y.1 as nat)),
            ),
        decreases keys@.len() - k,
    {
        let listener = &keys[k].0;
        let mut srcs: Vec<String> = Vec::new();
        let mut t: usize = 0;
        while t < connections.len()
            invariant
                0 <= t <= connections@.len(),
                ev == edges_view(connections@),
                srcs@.map_values(|s: String| s@) == sources_of(ev.take(t as int), listener@),
            decreases connections@.len() - t,
        {
            let ghost before = srcs@;
            assert(ev.take(t + 1).drop_last() =~= ev.take(t as int));
            assert(ev.take(t + 1).last() == ev[t as int]);
            assert(ev[t as int] == connections@[t as int]@);
            if str_eq(connections[t].listener_id.as_str(), listener.as_str()) {
                srcs.push(copy_string(&connections[t].source_id));
                assert(srcs@.map_values(|s: String| s@) =~= before.map_values(|s: String| s@).push(ev[t as int].1));
            }
            t = t + 1;
        }
        assert(ev.take(t as int) =~= ev);
        let grouped = tally(&srcs);
        r.push((copy_string(listener), grouped));
        k = k + 1;
    }
    proof {
        let kv = keys@.map_values(|x: (String, usize)| (x.0@, x.1 as nat));
        let rv = r@.map_values(|x: (String, Vec<(String, usize)>)| (x.0@, sources_of(ev, x.0@).len()));
        assert forall|i: int| 0 <= i < rv.len() implies rv[i].0 == kv[i].0 by {
            assert(r@[i].0@ == keys@[i].0@);
        }
        assert forall|i: int| 0 <= i < rv.len() implies rv[i].1 == kv[i].1 by {
            lemma_sources_count(ev, kv[i].0);
        }
        assert(rv =~= kv) by {
            assert forall|i: int| 0 <= i < rv.len() implies rv[i] == kv[i] by {}
        }
    }
    r
}

proof fn lemma_sources_count(e: Seq<EdgeView>, x: Seq<char>)
    ensures
        sources_of(e, x).len() == occurrences(listeners(e), x),
    decreases e.len(),
{
    if e.len() > 0 {
        lemma_sources_count(e.drop_last(), x);
        assert(listeners(e).drop_last() =~= listeners(e.drop_last()));
        assert(listeners(e).last() == e.last().0);
    }
}

} // verus!
