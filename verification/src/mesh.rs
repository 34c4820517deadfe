//! The cortical mesh: the column population and its directed lateral
//! wiring (`listener -> sources`), lateral source routing, and mesh
//! construction from explicit edges or a declarative topology.
//!
//! Columns are kept in insertion order beside a parallel list of each
//! column's sources; ids are unique and every source is a column of the
//! mesh.
use vstd::prelude::*;

use crate::column::{
    Confidence, CorticalColumn, ColumnView, UNIT_CONFIDENCE_KEY, after_tick, default_columns,
    default_connections, reference_edges, replicated_column,
};
use crate::order::{item_before, rank_before, ranked_prefix, select_ranked, seq_lt};
use crate::text::{bounded_claim_excerpt, chars_of, claim_excerpt, copy_string, join, own_str, push_joined, push_str, str_eq, string_of};
use crate::topology::{
    LateralConnection, TopologyError, TopologyFault, TopologySpec, EdgeView, distinct_ids, edges_view, ids_view,
    index_of, law_connections_are_simple, lemma_distinct_ids, lemma_index_of_extend, lemma_index_of_facts,
    out_degree, topology_connections, topology_index_edges,
};

verus! {

// ---------------------------------------------------------------------------
// Errors and routing types
// ---------------------------------------------------------------------------

/// Errors raised by mesh construction.
#[derive(Debug)]
pub enum MeshError {
    /// A referenced column id does not exist in the mesh.
    UnknownColumn(String),
    /// A column with this id was already added.
    DuplicateColumn(String),
    /// A topology could not be materialized against the supplied columns.
    Topology(TopologyError),
}

/// The mathematical content of a [`MeshError`].
pub enum MeshFault {
    UnknownColumn(Seq<char>),
    DuplicateColumn(Seq<char>),
    Topology(TopologyFault),
}

impl View for MeshError {
    type V = MeshFault;

    open spec fn view(&self) -> MeshFault {
        match self {
            MeshError::UnknownColumn(s) => MeshFault::UnknownColumn(s@),
            MeshError::DuplicateColumn(s) => MeshFault::DuplicateColumn(s@),
            MeshError::Topology(e) => MeshFault::Topology(e@),
        }
    }
}

/// How a column selects which neighbors' predictions to inject as lateral
/// context.
#[derive(Debug, Clone, Copy, PartialEq, Eq)]
pub enum RoutingPolicy {
    /// Inject every neighbor with a non-empty prediction, with unit weight.
    All,
    /// Inject only the `k` highest-confidence neighbors (ties broken by id
    /// ascending); each selected source's weight is its own confidence.
    ConfidenceTopK { k: usize },
    /// Diversity-preserving (MMR-style) selection of up to `k` sources,
    /// anchored on the highest-confidence one.
    DiversityPreserving { k: usize },
}

impl Default for RoutingPolicy {
    fn default() -> (p: Self)
        ensures
            p == RoutingPolicy::All,
    {
        RoutingPolicy::All
    }
}

/// How a source's prediction is rendered when injected as lateral context.
#[derive(Debug, Clone, Copy, PartialEq, Eq)]
pub enum LateralContextMode {
    /// The neighbor's full prediction, verbatim.
    Raw,
    /// A bounded claim excerpt per source plus a synthesis directive.
    Structured,
}

impl Default for LateralContextMode {
    fn default() -> (m: Self)
        ensures
            m == LateralContextMode::Raw,
    {
        LateralContextMode::Raw
    }
}

/// Maximum characters of a structured lateral claim excerpt.
pub const STRUCTURED_CLAIM_MAX_CHARS: usize = 180;

/// One source a listener hears from on a tick, with the weight the routing
/// policy assigned it and the source's own confidence.
#[derive(Debug)]
pub struct RoutedSource {
    pub source_id: String,
    pub weight: Confidence,
    pub confidence: Confidence,
}

/// `(source id, weight key, confidence key)`.
pub type RoutedView = (Seq<char>, u32, u32);

impl View for RoutedSource {
    type V = RoutedView;

    open spec fn view(&self) -> RoutedView {
        (self.source_id@, self.weight.key, self.confidence.key)
    }
}

/// The views of routed sources.
pub open spec fn routed_view(v: Seq<RoutedSource>) -> Seq<RoutedView> {
    v.map_values(|r: RoutedSource| r@)
}

/// A listener's routing decision for one tick.
#[derive(Debug)]
pub struct RouteDecision {
    pub listener_id: String,
    pub sources: Vec<RoutedSource>,
}

/// The outcome of lateral source selection. Diversity-preserving routing
/// scores candidates by prediction similarity, which is computed outside
/// this crate: for it the selection hands back the candidate pool in
/// anchor order (highest confidence first, ties by id) together with the
/// budget.
#[derive(Debug)]
pub enum LateralSelection {
    /// The final selection.
    Routed(Vec<RoutedSource>),
    /// Diversity-preserving selection still to be scored: `pool` is
    /// non-empty, ordered best-first, and `k > 0`; the first entry is the
    /// anchor, always selected.
    DiversityPool { pool: Vec<RoutedSource>, k: usize },
}

impl LateralSelection {
    /// Whether no source will be heard. A diversity pool always yields at
    /// least its anchor.
    pub fn is_empty(&self) -> (r: bool)
        ensures
            r == (self matches LateralSelection::Routed(v) && v@.len() == 0),
    {
        match self {
            LateralSelection::Routed(v) => v.len() == 0,
            LateralSelection::DiversityPool { .. } => false,
        }
    }
}

// ---------------------------------------------------------------------------
// Mesh state
// ---------------------------------------------------------------------------

/// The orchestrator's column population and topology.
#[derive(Debug)]
pub struct CorticalMesh {
    /// Columns, in insertion order; ids are unique.
    pub columns: Vec<CorticalColumn>,
    /// `adjacency_list[k]` lists the ids column `k` listens to, without
    /// repeats.
    pub adjacency_list: Vec<Vec<String>>,
    /// How each column selects which neighbors to listen to.
    pub routing_policy: RoutingPolicy,
    /// How a source prediction is rendered when injected laterally.
    pub lateral_context_mode: LateralContextMode,
}

/// The abstract wiring of a mesh: columns in insertion order and, for each,
/// the ids it listens to.
#[verifier::ext_equal]
pub struct MeshState {
    pub columns: Seq<ColumnView>,
    pub sources: Seq<Seq<Seq<char>>>,
}

/// The ids of a column population.
pub open spec fn ids_of(cols: Seq<ColumnView>) -> Seq<Seq<char>> {
    cols.map_values(|c: ColumnView| c.id)
}

/// Where `id` sits in the population.
pub open spec fn position(st: MeshState, id: Seq<char>) -> Option<int> {
    index_of(ids_of(st.columns), id)
}

/// The mesh with no columns.
pub open spec fn empty_state() -> MeshState {
    MeshState { columns: Seq::empty(), sources: Seq::empty() }
}

/// Adding a column: a repeated id is refused, otherwise the column joins
/// with no sources.
pub open spec fn state_add(st: MeshState, col: ColumnView) -> Result<MeshState, MeshFault> {
    if position(st, col.id) is Some {
        Err(MeshFault::DuplicateColumn(col.id))
    } else {
        Ok(MeshState { columns: st.columns.push(col), sources: st.sources.push(Seq::empty()) })
    }
}

/// Connecting `from -> to` (`from` listens to `to`): both must be columns
/// (`from` checked first); an existing connection is left as is.
pub open spec fn state_connect(st: MeshState, from: Seq<char>, to: Seq<char>) -> Result<MeshState, MeshFault> {
    match position(st, from) {
        None => Err(MeshFault::UnknownColumn(from)),
        Some(f) => match position(st, to) {
            None => Err(MeshFault::UnknownColumn(to)),
            Some(_) => if st.sources[f].contains(to) {
                Ok(st)
            } else {
                Ok(MeshState { columns: st.columns, sources: st.sources.update(f, st.sources[f].push(to)) })
            },
        },
    }
}

/// Adding the first `m` columns in order, stopping at the first refusal.
pub open spec fn state_add_all(st: MeshState, cols: Seq<ColumnView>, m: int) -> Result<MeshState, MeshFault>
    decreases m,
{
    if m <= 0 {
        Ok(st)
    } else {
        match state_add_all(st, cols, m - 1) {
            Ok(s) => state_add(s, cols[m - 1]),
            Err(e) => Err(e),
        }
    }
}

/// Connecting the first `m` `(listener, source)` edges in order, stopping at
/// the first refusal.
pub open spec fn state_connect_all(st: MeshState, edges: Seq<EdgeView>, m: int) -> Result<MeshState, MeshFault>
    decreases m,
{
    if m <= 0 {
        Ok(st)
    } else {
        match state_connect_all(st, edges, m - 1) {
            Ok(s) => state_connect(s, edges[m - 1].0, edges[m - 1].1),
            Err(e) => Err(e),
        }
    }
}

/// The wiring invariant: one source list per column, unique ids, and every
/// source list names existing columns without repeats.
pub open spec fn state_wf(st: MeshState) -> bool {
    &&& st.sources.len() == st.columns.len()
    &&& forall|a: int, b: int| 0 <= a < b < st.columns.len() ==> st.columns[a].id != st.columns[b].id
    &&& forall|k: int, j: int|
        0 <= k < st.sources.len() && 0 <= j < st.sources[k].len() ==> position(st, #[trigger] st.sources[k][j]) is Some
    &&& forall|k: int, a: int, b: int|
        0 <= k < st.sources.len() && 0 <= a < b < st.sources[k].len() ==> #[trigger] st.sources[k][a] != #[trigger] st.sources[k][b]
}

impl CorticalMesh {
    /// The abstract wiring.
    pub open spec fn state(&self) -> MeshState {
        MeshState {
            columns: self.columns@.map_values(|c: CorticalColumn| c@),
            sources: self.adjacency_list@.map_values(|v: Vec<String>| v@.map_values(|s: String| s@)),
        }
    }

    /// The wiring invariant holds.
    pub open spec fn wf(&self) -> bool {
        state_wf(self.state())
    }

    /// An empty mesh with the default routing policy (`All`) and lateral
    /// mode (`Raw`).
    pub fn new() -> (m: Self)
        ensures
            m.state() == empty_state(),
            m.wf(),
            m.routing_policy == RoutingPolicy::All,
            m.lateral_context_mode == LateralContextMode::Raw,
    {
        let m = CorticalMesh {
            columns: Vec::new(),
            adjacency_list: Vec::new(),
            routing_policy: RoutingPolicy::All,
            lateral_context_mode: LateralContextMode::Raw,
        };
        assert(m.state().columns =~= empty_state().columns);
        assert(m.state().sources =~= empty_state().sources);
        m
    }

    /// The position of the column with this id.
    pub fn find_column(&self, id: &str) -> (r: Option<usize>)
        ensures
            match r {
                Some(k) => position(self.state(), id@) == Some(k as int),
                None => position(self.state(), id@) is None,
            },
    {
        let ghost v = ids_of(self.state().columns);
        let mut j: usize = 0;
        while j < self.columns.len()
            invariant
                0 <= j <= self.columns@.len(),
                v == ids_of(self.state().columns),
                v.len() == self.columns@.len(),
                index_of(v.take(j as int), id@) is None,
            decreases self.columns@.len() - j,
        {
            assert(v.take(j + 1).drop_last() =~= v.take(j as int));
            assert(v[j as int] == self.columns@[j as int].id@);
            if str_eq(self.columns[j].id.as_str(), id) {
                proof {
                    lemma_index_of_extend(v, id@, j + 1);
                }
                return Some(j);
            }
            j = j + 1;
        }
        assert(v.take(j as int) =~= v);
        None
    }

    /// Add a column to the mesh.
    ///
    /// Errors with `DuplicateColumn` if the id already exists.
    pub fn add_column(&mut self, col: CorticalColumn) -> (r: Result<(), MeshError>)
        requires
            old(self).wf(),
        ensures
            final(self).wf(),
            final(self).routing_policy == old(self).routing_policy,
            final(self).lateral_context_mode == old(self).lateral_context_mode,
            match r {
                Ok(()) => state_add(old(self).state(), col@) == Ok::<MeshState, MeshFault>(final(self).state()),
                Err(e) => state_add(old(self).state(), col@) == Err::<MeshState, MeshFault>(e@)
                    && final(self).state() == old(self).state(),
            },
    {
        if self.find_column(col.id.as_str()).is_some() {
            return Err(MeshError::DuplicateColumn(copy_string(&col.id)));
        }
        let ghost old_st = self.state();
        self.columns.push(col);
        self.adjacency_list.push(Vec::new());
        proof {
            let st = self.state();
            assert(st.columns =~= old_st.columns.push(col@));
            assert(st.sources.last() =~= Seq::<Seq<char>>::empty());
            assert(st.sources =~= old_st.sources.push(Seq::empty()));
            lemma_position_after_push(old_st.columns, col@);
            assert forall|a: int, b: int| 0 <= a < b < st.columns.len() implies st.columns[a].id
                != st.columns[b].id by {
                if b == st.columns.len() - 1 {
                    lemma_index_of_facts(ids_of(old_st.columns), col@.id);
                    assert(ids_of(old_st.columns)[a] == old_st.columns[a].id);
                }
            }
            assert forall|k: int, j: int|
                0 <= k < st.sources.len() && 0 <= j < st.sources[k].len() implies position(
                st,
                #[trigger] st.sources[k][j],
            ) is Some by {
                assert(st.sources[k] == old_st.sources[k]);
                assert(position(old_st, old_st.sources[k][j]) is Some);
            }
            assert forall|k: int, a: int, b: int|
                0 <= k < st.sources.len() && 0 <= a < b < st.sources[k].len() implies #[trigger] st.sources[k][a]
                != #[trigger] st.sources[k][b] by {
                assert(st.sources[k] == old_st.sources[k]);
            }
        }
        Ok(())
    }
}


/// The views of a list of ids.
pub open spec fn strings_view(v: Seq<String>) -> Seq<Seq<char>> {
    v.map_values(|s: String| s@)
}

fn copy_strings(v: &Vec<String>) -> (r: Vec<String>)
    ensures
        strings_view(r@) == strings_view(v@),
{
    let mut r: Vec<String> = Vec::new();
    let mut j: usize = 0;
    while j < v.len()
        invariant
            0 <= j <= v@.len(),
            strings_view(r@) == strings_view(v@).take(j as int),
        decreases v@.len() - j,
    {
        let c = copy_string(&v[j]);
        let ghost before = r@;
        r.push(c);
        assert(strings_view(r@) =~= strings_view(before).push(v@[j as int]@));
        assert(strings_view(v@).take(j + 1) =~= strings_view(v@).take(j as int).push(v@[j as int]@));
        j = j + 1;
    }
    assert(strings_view(v@).take(j as int) =~= strings_view(v@));
    r
}

/// Whether `x` occurs in the list.
fn contains_str(v: &Vec<String>, x: &str) -> (r: bool)
    ensures
        r == strings_view(v@).contains(x@),
{
    let ghost sv = strings_view(v@);
    let mut j: usize = 0;
    while j < v.len()
        invariant
            0 <= j <= v@.len(),
            sv == strings_view(v@),
            !sv.take(j as int).contains(x@),
        decreases v@.len() - j,
    {
        if str_eq(v[j].as_str(), x) {
            assert(sv[j as int] == x@);
            return true;
        }
        assert(sv.take(j + 1) =~= sv.take(j as int).push(sv[j as int]));
        j = j + 1;
    }
    assert(sv.take(j as int) =~= sv);
    false
}

/// The columns a listener hears from, in its source order.
pub open spec fn neighbor_views(st: MeshState, k: int) -> Seq<ColumnView> {
    st.sources[k].map_values(|sid: Seq<char>| st.columns[position(st, sid)->0])
}

impl CorticalMesh {
    /// Establish a directed lateral connection `from -> to`: `from` listens
    /// to `to`. Idempotent.
    ///
    /// Errors with `UnknownColumn` if either endpoint is unknown (`from`
    /// checked first).
    pub fn establish_lateral_connection(&mut self, from: &str, to: &str) -> (r: Result<(), MeshError>)
        requires
            old(self).wf(),
        ensures
            final(self).wf(),
            final(self).routing_policy == old(self).routing_policy,
            final(self).lateral_context_mode == old(self).lateral_context_mode,
            match r {
                Ok(()) => state_connect(old(self).state(), from@, to@) == Ok::<MeshState, MeshFault>(final(self).state()),
                Err(e) => state_connect(old(self).state(), from@, to@) == Err::<MeshState, MeshFault>(e@)
                    && final(self).state() == old(self).state(),
            },
    {
        let f = match self.find_column(from) {
            Some(f) => f,
            None => {
                return Err(MeshError::UnknownColumn(own_str(from)));
            },
        };
        if self.find_column(to).is_none() {
            return Err(MeshError::UnknownColumn(own_str(to)));
        }
        let ghost old_st = self.state();
        proof {
            lemma_index_of_facts(ids_of(old_st.columns), from@);
            lemma_index_of_facts(ids_of(old_st.columns), to@);
        }
        if contains_str(&self.adjacency_list[f], to) {
            return Ok(());
        }
        let mut row = copy_strings(&self.adjacency_list[f]);
        row.push(own_str(to));
        self.adjacency_list.set(f, row);
        proof {
            let st = self.state();
            let nrow = old_st.sources[f as int].push(to@);
            assert(st.columns =~= old_st.columns);
            assert(st.sources[f as int] =~= nrow);
            assert(st.sources =~= old_st.sources.update(f as int, nrow));
            assert forall|k: int, j: int|
                0 <= k < st.sources.len() && 0 <= j < st.sources[k].len() implies position(
                st,
                #[trigger] st.sources[k][j],
            ) is Some by {
                if k != f || j < old_st.sources[k].len() {
                    assert(st.sources[k][j] == old_st.sources[k][j]);
                    assert(position(old_st, old_st.sources[k][j]) is Some);
                }
            }
            assert forall|k: int, a: int, b: int|
                0 <= k < st.sources.len() && 0 <= a < b < st.sources[k].len() implies #[trigger] st.sources[k][a]
                != #[trigger] st.sources[k][b] by {
                if k == f && b == old_st.sources[k].len() {
                    assert(st.sources[k][a] == old_st.sources[k][a]);
                    assert(!old_st.sources[k].contains(to@));
                } else {
                    assert(st.sources[k][a] == old_st.sources[k][a]);
                    assert(st.sources[k][b] == old_st.sources[k][b]);
                }
            }
        }
        Ok(())
    }

    /// The columns a given column is connected to (listens to), in the order
    /// the connections were made.
    ///
    /// Errors with `UnknownColumn` if the id is unknown.
    pub fn get_neighbors(&self, id: &str) -> (r: Result<Vec<CorticalColumn>, MeshError>)
        requires
            self.wf(),
        ensures
            match r {
                Ok(v) => position(self.state(), id@) matches Some(k)
                    && v@.map_values(|c: CorticalColumn| c@) == neighbor_views(self.state(), k),
                Err(e) => position(self.state(), id@) is None && e@ == MeshFault::UnknownColumn(id@),
            },
    {
        let k = match self.find_column(id) {
            Some(k) => k,
            None => {
                return Err(MeshError::UnknownColumn(own_str(id)));
            },
        };
        let ghost st = self.state();
        let ghost nv = neighbor_views(st, k as int);
        proof {
            lemma_index_of_facts(ids_of(st.columns), id@);
        }
        let row = &self.adjacency_list[k];
        let mut out: Vec<CorticalColumn> = Vec::new();
        let mut j: usize = 0;
        while j < row.len()
            invariant
                self.wf(),
                st == self.state(),
                0 <= k < self.adjacency_list@.len(),
                row == self.adjacency_list@[k as int],
                nv == neighbor_views(st, k as int),
                0 <= j <= row@.len(),
                out@.map_values(|c: CorticalColumn| c@) == nv.take(j as int),
            decreases row@.len() - j,
        {
            assert(st.sources[k as int][j as int] == row@[j as int]@);
            let p = match self.find_column(row[j].as_str()) {
                Some(p) => p,
                None => {
                    proof {
                        assert(position(st, st.sources[k as int][j as int]) is Some);
                    }
                    return Err(MeshError::UnknownColumn(own_str(id)));
                },
            };
            proof {
                lemma_index_of_facts(ids_of(st.columns), row@[j as int]@);
            }
            let c = self.columns[p].duplicate();
            let ghost before = out@;
            assert(nv[j as int] == st.columns[p as int]);
            out.push(c);
            assert(out@.map_values(|c: CorticalColumn| c@) =~= before.map_values(|c: CorticalColumn| c@).push(nv[j as int]));
            assert(nv.take(j + 1) =~= nv.take(j as int).push(nv[j as int]));
            j = j + 1;
        }
        assert(nv.take(j as int) =~= nv);
        Ok(out)
    }
}


impl CorticalMesh {
    /// Record a column's tick outcome. Returns whether the column exists;
    /// an unknown id changes nothing.
    pub fn record_column_tick(
        &mut self,
        id: &str,
        coordinate: &str,
        prediction: &str,
        confidence: Confidence,
    ) -> (found: bool)
        requires
            old(self).wf(),
        ensures
            final(self).wf(),
            final(self).routing_policy == old(self).routing_policy,
            final(self).lateral_context_mode == old(self).lateral_context_mode,
            final(self).state().sources == old(self).state().sources,
            found == position(old(self).state(), id@) is Some,
            match position(old(self).state(), id@) {
                Some(p) => final(self).state().columns == old(self).state().columns.update(
                    p,
                    after_tick(old(self).state().columns[p], coordinate@, prediction@, confidence.key),
                ),
                None => final(self).state() == old(self).state(),
            },
    {
        let p = match self.find_column(id) {
            Some(p) => p,
            None => {
                return false;
            },
        };
        let ghost old_st = self.state();
        proof {
            lemma_index_of_facts(ids_of(old_st.columns), id@);
        }
        let mut col = self.columns[p].duplicate();
        col.record_tick(coordinate, prediction, confidence);
        self.columns.set(p, col);
        proof {
            let st = self.state();
            assert(st.columns =~= old_st.columns.update(
                p as int,
                after_tick(old_st.columns[p as int], coordinate@, prediction@, confidence.key),
            ));
            assert(st.sources =~= old_st.sources);
            assert(ids_of(st.columns) =~= ids_of(old_st.columns));
            assert forall|k: int, j: int|
                0 <= k < st.sources.len() && 0 <= j < st.sources[k].len() implies position(
                st,
                #[trigger] st.sources[k][j],
            ) is Some by {
                assert(position(old_st, old_st.sources[k][j]) is Some);
            }
            assert forall|a: int, b: int| 0 <= a < b < st.columns.len() implies st.columns[a].id
                != st.columns[b].id by {
                assert(ids_of(st.columns)[a] == ids_of(old_st.columns)[a]);
                assert(ids_of(st.columns)[b] == ids_of(old_st.columns)[b]);
            }
        }
        true
    }
}

// ---------------------------------------------------------------------------
// Lateral source routing
// ---------------------------------------------------------------------------

/// A routing candidate: a source id and its confidence key.
pub type Candidate = (Seq<char>, u32);

/// The candidates among the sources `srcs`: each source whose column has a
/// non-empty prediction, with that column's confidence, in source order.
pub open spec fn candidates(st: MeshState, srcs: Seq<Seq<char>>) -> Seq<Candidate>
    decreases srcs.len(),
{
    if srcs.len() == 0 {
        Seq::empty()
    } else {
        let prev = candidates(st, srcs.drop_last());
        match position(st, srcs.last()) {
            Some(p) => if st.columns[p].last_prediction.len() > 0 {
                prev.push((srcs.last(), st.columns[p].last_confidence))
            } else {
                prev
            },
            None => prev,
        }
    }
}

/// The candidates a listener can hear from; none for an unknown listener.
pub open spec fn listener_candidates(st: MeshState, listener: Seq<char>) -> Seq<Candidate> {
    match position(st, listener) {
        Some(k) => candidates(st, st.sources[k]),
        None => Seq::empty(),
    }
}

/// The confidence keys of candidates.
pub open spec fn cand_keys(c: Seq<Candidate>) -> Seq<u32> {
    c.map_values(|x: Candidate| x.1)
}

/// The ids of candidates.
pub open spec fn cand_ids(c: Seq<Candidate>) -> Seq<Seq<char>> {
    c.map_values(|x: Candidate| x.0)
}

/// Every candidate with unit weight, in source order.
pub open spec fn all_routes(c: Seq<Candidate>) -> Seq<RoutedView> {
    c.map_values(|x: Candidate| (x.0, UNIT_CONFIDENCE_KEY, x.1))
}

/// `r` routes the `min(k, len)` best-ranked candidates (highest confidence
/// first, ties by id ascending), best first, each weighted by its own
/// confidence; every candidate left out ranks after every one routed.
pub open spec fn ranked_routes(c: Seq<Candidate>, k: int, r: Seq<RoutedView>) -> bool {
    exists|idx: Seq<usize>|
        #[trigger] ranked_prefix(cand_keys(c), cand_ids(c), k, idx) && r == idx.map_values(
            |i: usize| (c[i as int].0, c[i as int].1, c[i as int].1),
        )
}

/// What lateral source selection gives for a routing policy and the
/// listener's candidates.
pub open spec fn selection_matches(policy: RoutingPolicy, c: Seq<Candidate>, sel: LateralSelection) -> bool {
    match policy {
        RoutingPolicy::All => sel matches LateralSelection::Routed(v) && routed_view(v@) == all_routes(c),
        RoutingPolicy::ConfidenceTopK { k } => sel matches LateralSelection::Routed(v) && ranked_routes(
            c,
            k as int,
            routed_view(v@),
        ),
        RoutingPolicy::DiversityPreserving { k } => if k == 0 || c.len() == 0 {
            sel matches LateralSelection::Routed(v) && v@.len() == 0
        } else {
            sel matches LateralSelection::DiversityPool { pool, k: budget } && budget == k && ranked_routes(
                c,
                c.len() as int,
                routed_view(pool@),
            )
        },
    }
}

proof fn lemma_candidates_facts(st: MeshState, srcs: Seq<Seq<char>>)
    requires
        forall|a: int, b: int| 0 <= a < b < srcs.len() ==> srcs[a] != srcs[b],
    ensures
        forall|i: int| 0 <= i < candidates(st, srcs).len() ==> srcs.contains(#[trigger] candidates(st, srcs)[i].0),
        forall|a: int, b: int|
            0 <= a < b < candidates(st, srcs).len() ==> (#[trigger] candidates(st, srcs)[a]).0 != (
            #[trigger] candidates(st, srcs)[b]).0,
    decreases srcs.len(),
{
    if srcs.len() > 0 {
        let d = srcs.drop_last();
        lemma_candidates_facts(st, d);
        let prev = candidates(st, d);
        let c = candidates(st, srcs);
        assert forall|i: int| 0 <= i < prev.len() implies srcs.contains(#[trigger] prev[i].0) by {
            let j = choose|j: int| 0 <= j < d.len() && d[j] == prev[i].0;
            assert(srcs[j] == d[j]);
        }
        assert(srcs[srcs.len() - 1] == srcs.last());
        assert forall|i: int| 0 <= i < prev.len() implies (#[trigger] prev[i]).0 != srcs.last() by {
            let j = choose|j: int| 0 <= j < d.len() && d[j] == prev[i].0;
            assert(srcs[j] == d[j]);
        }
    }
}

/// The views of routes built from parallel id and key lists at the given
/// positions, each weighted by its own key.
fn routes_at(ids: &Vec<String>, keys: &Vec<u32>, idx: &Vec<usize>) -> (r: Vec<RoutedSource>)
    requires
        ids@.len() == keys@.len(),
        forall|j: int| 0 <= j < idx@.len() ==> (#[trigger] idx@[j]) < ids@.len(),
    ensures
        routed_view(r@) == idx@.map_values(|i: usize| (ids@[i as int]@, keys@[i as int], keys@[i as int])),
{
    let ghost want = idx@.map_values(|i: usize| (ids@[i as int]@, keys@[i as int], keys@[i as int]));
    let mut r: Vec<RoutedSource> = Vec::new();
    let mut j: usize = 0;
    while j < idx.len()
        invariant
            ids@.len() == keys@.len(),
            forall|t: int| 0 <= t < idx@.len() ==> (#[trigger] idx@[t]) < ids@.len(),
            want == idx@.map_values(|i: usize| (ids@[i as int]@, keys@[i as int], keys@[i as int])),
            0 <= j <= idx@.len(),
            routed_view(r@) == want.take(j as int),
        decreases idx@.len() - j,
    {
        let i = idx[j];
        let key = keys[i];
        let src = RoutedSource {
            source_id: copy_string(&ids[i]),
            weight: Confidence { key },
            confidence: Confidence { key },
        };
        let ghost before = r@;
        r.push(src);
        assert(routed_view(r@) =~= routed_view(before).push(want[j as int]));
        assert(want.take(j + 1) =~= want.take(j as int).push(want[j as int]));
        j = j + 1;
    }
    assert(want.take(j as int) =~= want);
    r
}

impl CorticalMesh {
    /// The candidates a listener can hear from, as parallel lists of ids,
    /// confidence keys and id characters.
    fn gather_candidates(&self, listener_id: &str) -> (r: (Vec<String>, Vec<u32>, Vec<Vec<char>>))
        requires
            self.wf(),
        ensures
            ({
                let c = listener_candidates(self.state(), listener_id@);
                &&& strings_view(r.0@) == cand_ids(c)
                &&& r.1@ == cand_keys(c)
                &&& r.2@.map_values(|v: Vec<char>| v@) == cand_ids(c)
                &&& forall|a: int, b: int| 0 <= a < b < c.len() ==> (#[trigger] c[a]).0 != (#[trigger] c[b]).0
            }),
    {
        let ghost st = self.state();
        let mut ids: Vec<String> = Vec::new();
        let mut keys: Vec<u32> = Vec::new();
        let mut chars: Vec<Vec<char>> = Vec::new();
        let k = match self.find_column(listener_id) {
            Some(k) => k,
            None => {
                proof {
                    assert(strings_view(ids@) =~= Seq::<Seq<char>>::empty());
                    assert(keys@ =~= Seq::<u32>::empty());
                    assert(chars@.map_values(|v: Vec<char>| v@) =~= Seq::<Seq<char>>::empty());
                }
                return (ids, keys, chars);
            },
        };
        proof {
            lemma_index_of_facts(ids_of(st.columns), listener_id@);
        }
        let ghost srcs = st.sources[k as int];
        let row = &self.adjacency_list[k];
        let mut j: usize = 0;
        while j < row.len()
            invariant
                self.wf(),
                st == self.state(),
                0 <= k < self.adjacency_list@.len(),
                row == self.adjacency_list@[k as int],
                srcs == st.sources[k as int],
                srcs == strings_view(row@),
                0 <= j <= row@.len(),
                strings_view(ids@) == cand_ids(candidates(st, srcs.take(j as int))),
                keys@ == cand_keys(candidates(st, srcs.take(j as int))),
                chars@.map_values(|v: Vec<char>| v@) == cand_ids(candidates(st, srcs.take(j as int))),
            decreases row@.len() - j,
        {
            let ghost cj = candidates(st, srcs.take(j as int));
            assert(srcs.take(j + 1).drop_last() =~= srcs.take(j as int));
            assert(srcs.take(j + 1).last() == srcs[j as int]);
            assert(position(st, srcs[j as int]) is Some);
            let p = match self.find_column(row[j].as_str()) {
                Some(p) => p,
                None => {
                    return (ids, keys, chars);
                },
            };
            proof {
                lemma_index_of_facts(ids_of(st.columns), srcs[j as int]);
            }
            if !self.columns[p].last_prediction.as_str().is_empty() {
                let key = self.columns[p].last_confidence.key;
                let id_copy = copy_string(&row[j]);
                let id_chars = chars_of(row[j].as_str());
                let ghost (bi, bc) = (ids@, chars@);
                ids.push(id_copy);
                keys.push(key);
                chars.push(id_chars);
                proof {
                    let cn = candidates(st, srcs.take(j + 1));
                    assert(cn == cj.push((srcs[j as int], key)));
                    assert(strings_view(ids@) =~= strings_view(bi).push(srcs[j as int]));
                    assert(cand_ids(cn) =~= cand_ids(cj).push(srcs[j as int]));
                    assert(cand_keys(cn) =~= cand_keys(cj).push(key));
                    assert(chars@.map_values(|v: Vec<char>| v@) =~= bc.map_values(|v: Vec<char>| v@).push(
                        srcs[j as int],
                    ));
                }
            }
            j = j + 1;
        }
        proof {
            assert(srcs.take(j as int) =~= srcs);
            lemma_candidates_facts(st, srcs);
        }
        (ids, keys, chars)
    }

    /// Select and weight the lateral sources a listener will hear from, per
    /// the routing policy. Neighbors with an empty prediction carry nothing
    /// and are dropped; an unknown listener hears nothing.
    ///
    /// - `All`: every candidate, in connection order, with unit weight.
    /// - `ConfidenceTopK { k }`: the `k` highest-confidence candidates (ties
    ///   by id ascending), best first, weighted by their confidence.
    /// - `DiversityPreserving { k }`: nothing when `k == 0` or there is no
    ///   candidate; otherwise every candidate in anchor order, weighted by
    ///   its confidence, for similarity scoring to pick from.
    pub fn select_lateral_sources(&self, listener_id: &str) -> (r: LateralSelection)
        requires
            self.wf(),
        ensures
            selection_matches(self.routing_policy, listener_candidates(self.state(), listener_id@), r),
    {
        let ghost c = listener_candidates(self.state(), listener_id@);
        let (ids, keys, chars) = self.gather_candidates(listener_id);
        proof {
            assert(strings_view(ids@).len() == ids@.len());
            assert(cand_ids(c).len() == c.len());
            assert(ids@.len() == c.len());
            assert(chars@.map_values(|v: Vec<char>| v@).len() == chars@.len());
            assert forall|a: int, b: int| 0 <= a < b < chars@.len() implies chars@[a]@ != chars@[b]@ by {
                assert(chars@.map_values(|v: Vec<char>| v@)[a] == c[a].0);
                assert(chars@.map_values(|v: Vec<char>| v@)[b] == c[b].0);
            }
            assert(chars@.map_values(|v: Vec<char>| v@) == cand_ids(c));
        }
        match self.routing_policy {
            RoutingPolicy::All => {
                let mut r: Vec<RoutedSource> = Vec::new();
                let mut j: usize = 0;
                while j < ids.len()
                    invariant
                        strings_view(ids@) == cand_ids(c),
                        keys@ == cand_keys(c),
                        ids@.len() == c.len(),
                        0 <= j <= ids@.len(),
                        routed_view(r@) == all_routes(c).take(j as int),
                    decreases ids@.len() - j,
                {
                    let src = RoutedSource {
                        source_id: copy_string(&ids[j]),
                        weight: Confidence::unit(),
                        confidence: Confidence { key: keys[j] },
                    };
                    let ghost before = r@;
                    assert(strings_view(ids@)[j as int] == c[j as int].0);
                    assert(keys@[j as int] == c[j as int].1);
                    r.push(src);
                    assert(routed_view(r@) =~= routed_view(before).push(all_routes(c)[j as int]));
                    assert(all_routes(c).take(j + 1) =~= all_routes(c).take(j as int).push(all_routes(c)[j as int]));
                    j = j + 1;
                }
                assert(all_routes(c).take(j as int) =~= all_routes(c));
                LateralSelection::Routed(r)
            },
            RoutingPolicy::ConfidenceTopK { k } => {
                let idx = select_ranked(&keys, &chars, k);
                let r = routes_at(&ids, &keys, &idx);
                proof {
                    lemma_routes_ranked(c, k as int, idx@, ids@, keys@, routed_view(r@));
                }
                LateralSelection::Routed(r)
            },
            RoutingPolicy::DiversityPreserving { k } => {
                if k == 0 || ids.len() == 0 {
                    return LateralSelection::Routed(Vec::new());
                }
                let idx = select_ranked(&keys, &chars, ids.len());
                let pool = routes_at(&ids, &keys, &idx);
                proof {
                    lemma_routes_ranked(c, c.len() as int, idx@, ids@, keys@, routed_view(pool@));
                }
                LateralSelection::DiversityPool { pool, k }
            },
        }
    }

    /// Column ids in ascending order.
    pub fn column_ids_sorted(&self) -> (r: Vec<String>)
        requires
            self.wf(),
        ensures
            r@.len() == self.columns@.len(),
            forall|j: int| 0 <= j < r@.len() ==> position(self.state(), #[trigger] r@[j]@) is Some,
            forall|a: int, b: int| 0 <= a < b < r@.len() ==> seq_lt(#[trigger] r@[a]@, #[trigger] r@[b]@),
    {
        let ghost st = self.state();
        let n = self.columns.len();
        let mut keys: Vec<u32> = Vec::new();
        let mut chars: Vec<Vec<char>> = Vec::new();
        let mut j: usize = 0;
        while j < n
            invariant
                n == self.columns@.len(),
                st == self.state(),
                0 <= j <= n,
                keys@.len() == j,
                forall|t: int| 0 <= t < j ==> #[trigger] keys@[t] == 0,
                chars@.map_values(|v: Vec<char>| v@) == ids_of(st.columns).take(j as int),
            decreases n - j,
        {
            let ghost before = chars@;
            keys.push(0);
            chars.push(chars_of(self.columns[j].id.as_str()));
            assert(chars@.map_values(|v: Vec<char>| v@) =~= before.map_values(|v: Vec<char>| v@).push(
                ids_of(st.columns)[j as int],
            ));
            assert(ids_of(st.columns).take(j + 1) =~= ids_of(st.columns).take(j as int).push(
                ids_of(st.columns)[j as int],
            ));
            j = j + 1;
        }
        proof {
            assert(ids_of(st.columns).take(j as int) =~= ids_of(st.columns));
            assert forall|a: int, b: int| 0 <= a < b < chars@.len() implies chars@[a]@ != chars@[b]@ by {
                assert(chars@.map_values(|v: Vec<char>| v@)[a] == st.columns[a].id);
                assert(chars@.map_values(|v: Vec<char>| v@)[b] == st.columns[b].id);
            }
        }
        let idx = select_ranked(&keys, &chars, n);
        let ghost iv = chars@.map_values(|v: Vec<char>| v@);
        let mut r: Vec<String> = Vec::new();
        let mut t: usize = 0;
        while t < idx.len()
            invariant
                n == self.columns@.len(),
                st == self.state(),
                iv == ids_of(st.columns),
                ranked_prefix(keys@, iv, n as int, idx@),
                keys@.len() == n,
                forall|x: int| 0 <= x < n ==> #[trigger] keys@[x] == 0,
                0 <= t <= idx@.len(),
                r@.len() == t,
                forall|x: int| 0 <= x < t ==> (#[trigger] r@[x])@ == iv[idx@[x] as int],
            decreases idx@.len() - t,
        {
            let i = idx[t];
            assert(i < n);
            let id_copy = copy_string(&self.columns[i].id);
            assert(iv[i as int] == self.columns@[i as int].id@);
            r.push(id_copy);
            t = t + 1;
        }
        proof {
            assert forall|x: int| 0 <= x < r@.len() implies position(st, #[trigger] r@[x]@) is Some by {
                lemma_index_of_facts(ids_of(st.columns), r@[x]@);
                assert(ids_of(st.columns)[idx@[x] as int] == r@[x]@);
            }
            assert forall|a: int, b: int| 0 <= a < b < r@.len() implies seq_lt(
                #[trigger] r@[a]@,
                #[trigger] r@[b]@,
            ) by {
                assert(item_before(keys@, iv, idx@[a] as int, idx@[b] as int));
            }
        }
        r
    }
}

// ---------------------------------------------------------------------------
// Lateral context text
// ---------------------------------------------------------------------------

/// The header of raw lateral context.
pub open spec fn raw_header() -> Seq<char> {
    "[LATERAL LAYER UPDATE]\n"@
}

/// The header of structured lateral context: the packets are evidence to
/// weigh, not text to copy.
pub open spec fn structured_header() -> Seq<char> {
    "[LATERAL EVIDENCE PACKETS]\nTreat peer packets as fallible evidence. Do not quote or copy peer phrasing.\nSynthesize an independent answer within your own reference frame.\n"@
}

/// One source's line in raw mode: under `All` the prediction then the
/// confidence; under the budgeted policies the weight and confidence
/// first.
pub open spec fn raw_line(policy: RoutingPolicy, id: Seq<char>, pred: Seq<char>, weight: Seq<char>, conf: Seq<char>) -> Seq<char> {
    match policy {
        RoutingPolicy::All => "Neighbor "@ + id + " reports: Prediction=\""@ + pred + "\" (Confidence: "@ + conf + ")"@,
        _ => "Neighbor "@ + id + " [route_weight="@ + weight + ", confidence="@ + conf + "] reports: Prediction=\""@
            + pred + "\""@,
    }
}

/// One source's packet in structured mode: a bounded claim excerpt.
pub open spec fn structured_line(id: Seq<char>, excerpt: Seq<char>, weight: Seq<char>, conf: Seq<char>) -> Seq<char> {
    "source="@ + id + "; confidence="@ + conf + "; route_weight="@ + weight + "; claim_excerpt="@ + excerpt
}

/// The prediction a source carries in the mesh (empty if unknown).
pub open spec fn source_prediction(st: MeshState, id: Seq<char>) -> Seq<char> {
    match position(st, id) {
        Some(p) => st.columns[p].last_prediction,
        None => Seq::empty(),
    }
}

/// The lines of lateral context for the first `m` sources; structured mode
/// drops sources whose excerpt is empty.
pub open spec fn context_lines(
    st: MeshState,
    mode: LateralContextMode,
    policy: RoutingPolicy,
    ids: Seq<Seq<char>>,
    weights: Seq<Seq<char>>,
    confs: Seq<Seq<char>>,
    m: int,
) -> Seq<Seq<char>>
    decreases m,
{
    if m <= 0 {
        Seq::empty()
    } else {
        let prev = context_lines(st, mode, policy, ids, weights, confs, m - 1);
        let pred = source_prediction(st, ids[m - 1]);
        match mode {
            LateralContextMode::Raw => prev.push(raw_line(policy, ids[m - 1], pred, weights[m - 1], confs[m - 1])),
            LateralContextMode::Structured => {
                let ex = claim_excerpt(pred, STRUCTURED_CLAIM_MAX_CHARS as nat);
                if ex.len() == 0 {
                    prev
                } else {
                    prev.push(structured_line(ids[m - 1], ex, weights[m - 1], confs[m - 1]))
                }
            },
        }
    }
}

/// The lateral context: nothing without lines, otherwise the mode's header
/// and the lines, one per line.
pub open spec fn context_text(mode: LateralContextMode, lines: Seq<Seq<char>>) -> Seq<char> {
    if lines.len() == 0 {
        Seq::empty()
    } else {
        match mode {
            LateralContextMode::Raw => raw_header() + join(lines, "\n"@),
            LateralContextMode::Structured => structured_header() + join(lines, "\n"@),
        }
    }
}

impl CorticalMesh {
    /// The prediction a source column carries (empty if unknown).
    fn prediction_of(&self, id: &str) -> (p: String)
        requires
            self.wf(),
        ensures
            p@ == source_prediction(self.state(), id@),
    {
        match self.find_column(id) {
            Some(k) => {
                proof {
                    lemma_index_of_facts(ids_of(self.state().columns), id@);
                }
                copy_string(&self.columns[k].last_prediction)
            },
            None => String::new(),
        }
    }

    /// Render the lateral context for the sources a listener hears from,
    /// given each source's weight and confidence already formatted to two
    /// decimals. Raw mode quotes each prediction in full; structured mode
    /// gives a bounded claim excerpt per source (skipping empty ones) under
    /// a synthesis directive. Empty when no line remains.
    pub fn lateral_context_text(&self, source_ids: &Vec<String>, weights: &Vec<String>, confidences: &Vec<String>) -> (t: String)
        requires
            self.wf(),
            source_ids@.len() == weights@.len(),
            source_ids@.len() == confidences@.len(),
        ensures
            t@ == context_text(
                self.lateral_context_mode,
                context_lines(
                    self.state(),
                    self.lateral_context_mode,
                    self.routing_policy,
                    strings_view(source_ids@),
                    strings_view(weights@),
                    strings_view(confidences@),
                    source_ids@.len() as int,
                ),
            ),
    {
        let ghost st = self.state();
        let ghost (iv, wv, cv) = (strings_view(source_ids@), strings_view(weights@), strings_view(confidences@));
        let mut lines: Vec<String> = Vec::new();
        let mut j: usize = 0;
        while j < source_ids.len()
            invariant
                self.wf(),
                st == self.state(),
                iv == strings_view(source_ids@),
                wv == strings_view(weights@),
                cv == strings_view(confidences@),
                source_ids@.len() == weights@.len(),
                source_ids@.len() == confidences@.len(),
                0 <= j <= source_ids@.len(),
                strings_view(lines@) == context_lines(st, self.lateral_context_mode, self.routing_policy, iv, wv, cv, j as int),
            decreases source_ids@.len() - j,
        {
            let pred = self.prediction_of(source_ids[j].as_str());
            let ghost before = lines@;
            assert(iv[j as int] == source_ids@[j as int]@);
            assert(wv[j as int] == weights@[j as int]@);
            assert(cv[j as int] == confidences@[j as int]@);
            match self.lateral_context_mode {
                LateralContextMode::Raw => {
                    let mut v: Vec<char> = Vec::new();
                    push_str(&mut v, "Neighbor ");
                    push_str(&mut v, source_ids[j].as_str());
                    match self.routing_policy {
                        RoutingPolicy::All => {
                            push_str(&mut v, " reports: Prediction=\"");
                            push_str(&mut v, pred.as_str());
                            push_str(&mut v, "\" (Confidence: ");
                            push_str(&mut v, confidences[j].as_str());
                            push_str(&mut v, ")");
                        },
                        _ => {
                            push_str(&mut v, " [route_weight=");
                            push_str(&mut v, weights[j].as_str());
                            push_str(&mut v, ", confidence=");
                            push_str(&mut v, confidences[j].as_str());
                            push_str(&mut v, "] reports: Prediction=\"");
                            push_str(&mut v, pred.as_str());
                            push_str(&mut v, "\"");
                        },
                    }
                    lines.push(string_of(&v));
                    assert(strings_view(lines@) =~= strings_view(before).push(
                        raw_line(self.routing_policy, iv[j as int], pred@, wv[j as int], cv[j as int]),
                    ));
                },
                LateralContextMode::Structured => {
                    let excerpt = bounded_claim_excerpt(pred.as_str(), STRUCTURED_CLAIM_MAX_CHARS);
                    if excerpt.as_str().is_empty() {
                    } else {
                        let mut v: Vec<char> = Vec::new();
                        push_str(&mut v, "source=");
                        push_str(&mut v, source_ids[j].as_str());
                        push_str(&mut v, "; confidence=");
                        push_str(&mut v, confidences[j].as_str());
                        push_str(&mut v, "; route_weight=");
                        push_str(&mut v, weights[j].as_str());
                        push_str(&mut v, "; claim_excerpt=");
                        push_str(&mut v, excerpt.as_str());
                        lines.push(string_of(&v));
                        assert(strings_view(lines@) =~= strings_view(before).push(
                            structured_line(iv[j as int], excerpt@, wv[j as int], cv[j as int]),
                        ));
                    }
                },
            }
            j = j + 1;
        }
        if lines.len() == 0 {
            return String::new();
        }
        let mut t: Vec<char> = Vec::new();
        match self.lateral_context_mode {
            LateralContextMode::Raw => push_str(&mut t, "[LATERAL LAYER UPDATE]\n"),
            LateralContextMode::Structured => push_str(
                &mut t,
                "[LATERAL EVIDENCE PACKETS]\nTreat peer packets as fallible evidence. Do not quote or copy peer phrasing.\nSynthesize an independent answer within your own reference frame.\n",
            ),
        }
        push_joined(&mut t, &lines, "\n");
        string_of(&t)
    }
}

/// The prompt a column is run with: its system prompt, the input, and the
/// lateral context, under fixed section headings.
pub open spec fn prompt_text(system: Seq<char>, input: Seq<char>, lateral: Seq<char>) -> Seq<char> {
    system + "\n\nINPUT DATA TO PARSE:\n"@ + input + "\n\nLATERAL CONNECTIONS (NEIGHBOR SUGGESTIONS):\n"@ + lateral
}

/// Compose a column's prompt from its system prompt, the input and the
/// lateral context.
pub fn compose_prompt(column: &CorticalColumn, input_data: &str, lateral_context: &str) -> (p: String)
    ensures
        p@ == prompt_text(column.system_prompt@, input_data@, lateral_context@),
{
    let mut v: Vec<char> = Vec::new();
    push_str(&mut v, column.system_prompt.as_str());
    push_str(&mut v, "\n\nINPUT DATA TO PARSE:\n");
    push_str(&mut v, input_data);
    push_str(&mut v, "\n\nLATERAL CONNECTIONS (NEIGHBOR SUGGESTIONS):\n");
    push_str(&mut v, lateral_context);
    string_of(&v)
}

/// The chat-completions endpoint of a server.
pub fn chat_endpoint(base_url: &str) -> (u: String)
    ensures
        u@ == base_url@ + "/v1/chat/completions"@,
{
    let mut v: Vec<char> = Vec::new();
    push_str(&mut v, base_url);
    push_str(&mut v, "/v1/chat/completions");
    string_of(&v)
}

// ---------------------------------------------------------------------------
// Mesh construction
// ---------------------------------------------------------------------------

/// The views of a column population.
pub open spec fn columns_view(v: Seq<CorticalColumn>) -> Seq<ColumnView> {
    v.map_values(|c: CorticalColumn| c@)
}

/// Building a mesh: add the columns in order, then make the connections in
/// order, stopping at the first refusal.
pub open spec fn build_state(cols: Seq<ColumnView>, edges: Seq<EdgeView>) -> Result<MeshState, MeshFault> {
    match state_add_all(empty_state(), cols, cols.len() as int) {
        Ok(s) => state_connect_all(s, edges, edges.len() as int),
        Err(e) => Err(e),
    }
}

/// Building a mesh over a declarative topology materialized against the
/// columns' ids in order.
pub open spec fn topology_state(cols: Seq<ColumnView>, t: TopologySpec) -> Result<MeshState, MeshFault> {
    match topology_connections(t, ids_of(cols)) {
        Ok(edges) => build_state(cols, edges),
        Err(f) => Err(MeshFault::Topology(f)),
    }
}

/// A mesh whose wiring is `st`, with the default routing policy and
/// lateral mode.
pub open spec fn built_as(m: CorticalMesh, st: MeshState) -> bool {
    &&& m.wf()
    &&& m.state() == st
    &&& m.routing_policy == RoutingPolicy::All
    &&& m.lateral_context_mode == LateralContextMode::Raw
}

/// The outcome of a construction matches its abstract result.
pub open spec fn built_from(r: Result<CorticalMesh, MeshError>, want: Result<MeshState, MeshFault>) -> bool {
    match r {
        Ok(m) => want matches Ok(st) && built_as(m, st),
        Err(e) => want == Err::<MeshState, MeshFault>(e@),
    }
}

proof fn lemma_add_all_err(st: MeshState, cols: Seq<ColumnView>, m: int, n: int)
    requires
        0 <= m <= n,
        state_add_all(st, cols, m) is Err,
    ensures
        state_add_all(st, cols, n) == state_add_all(st, cols, m),
    decreases n - m,
{
    if n > m {
        lemma_add_all_err(st, cols, m, n - 1);
    }
}

proof fn lemma_connect_all_err(st: MeshState, edges: Seq<EdgeView>, m: int, n: int)
    requires
        0 <= m <= n,
        state_connect_all(st, edges, m) is Err,
    ensures
        state_connect_all(st, edges, n) == state_connect_all(st, edges, m),
    decreases n - m,
{
    if n > m {
        lemma_connect_all_err(st, edges, m, n - 1);
    }
}

/// Add each column in order, stopping at the first refusal.
fn add_columns(mesh: &mut CorticalMesh, columns: &Vec<CorticalColumn>) -> (r: Result<(), MeshError>)
    requires
        old(mesh).wf(),
    ensures
        final(mesh).wf(),
        final(mesh).routing_policy == old(mesh).routing_policy,
        final(mesh).lateral_context_mode == old(mesh).lateral_context_mode,
        match r {
            Ok(()) => state_add_all(old(mesh).state(), columns_view(columns@), columns@.len() as int) == Ok::<
                MeshState,
                MeshFault,
            >(final(mesh).state()),
            Err(e) => state_add_all(old(mesh).state(), columns_view(columns@), columns@.len() as int) == Err::<
                MeshState,
                MeshFault,
            >(e@),
        },
{
    let ghost st0 = old(mesh).state();
    let ghost cols = columns_view(columns@);
    let mut j: usize = 0;
    while j < columns.len()
        invariant
            mesh.wf(),
            mesh.routing_policy == old(mesh).routing_policy,
            mesh.lateral_context_mode == old(mesh).lateral_context_mode,
            cols == columns_view(columns@),
            st0 == old(mesh).state(),
            0 <= j <= columns@.len(),
            state_add_all(st0, cols, j as int) == Ok::<MeshState, MeshFault>(mesh.state()),
        decreases columns@.len() - j,
    {
        let c = columns[j].duplicate();
        assert(cols[j as int] == c@);
        match mesh.add_column(c) {
            Ok(()) => {},
            Err(e) => {
                proof {
                    assert(state_add_all(st0, cols, j + 1) == Err::<MeshState, MeshFault>(e@));
                    lemma_add_all_err(st0, cols, j + 1, columns@.len() as int);
                }
                return Err(e);
            },
        }
        j = j + 1;
    }
    Ok(())
}

/// Make each connection in order, stopping at the first refusal.
fn connect_all(mesh: &mut CorticalMesh, connections: &Vec<LateralConnection>) -> (r: Result<(), MeshError>)
    requires
        old(mesh).wf(),
    ensures
        final(mesh).wf(),
        final(mesh).routing_policy == old(mesh).routing_policy,
        final(mesh).lateral_context_mode == old(mesh).lateral_context_mode,
        match r {
            Ok(()) => state_connect_all(old(mesh).state(), edges_view(connections@), connections@.len() as int)
                == Ok::<MeshState, MeshFault>(final(mesh).state()),
            Err(e) => state_connect_all(old(mesh).state(), edges_view(connections@), connections@.len() as int)
                == Err::<MeshState, MeshFault>(e@),
        },
{
    let ghost st0 = old(mesh).state();
    let ghost edges = edges_view(connections@);
    let mut j: usize = 0;
    while j < connections.len()
        invariant
            mesh.wf(),
            mesh.routing_policy == old(mesh).routing_policy,
            mesh.lateral_context_mode == old(mesh).lateral_context_mode,
            edges == edges_view(connections@),
            st0 == old(mesh).state(),
            0 <= j <= connections@.len(),
            state_connect_all(st0, edges, j as int) == Ok::<MeshState, MeshFault>(mesh.state()),
        decreases connections@.len() - j,
    {
        let conn = &connections[j];
        assert(edges[j as int] == conn@);
        match mesh.establish_lateral_connection(conn.listener_id.as_str(), conn.source_id.as_str()) {
            Ok(()) => {},
            Err(e) => {
                proof {
                    assert(state_connect_all(st0, edges, j + 1) == Err::<MeshState, MeshFault>(e@));
                    lemma_connect_all_err(st0, edges, j + 1, connections@.len() as int);
                }
                return Err(e);
            },
        }
        j = j + 1;
    }
    Ok(())
}

/// Build a mesh from an explicit column population and an edge list. Each
/// connection says its listener receives its source's prediction.
///
/// Errors with `DuplicateColumn` for a repeated column id and with
/// `UnknownColumn` for an edge that names an id not among the columns.
pub fn mesh_from_columns(columns: Vec<CorticalColumn>, connections: Vec<LateralConnection>) -> (r: Result<
    CorticalMesh,
    MeshError,
>)
    ensures
        built_from(r, build_state(columns_view(columns@), edges_view(connections@))),
{
    let mut mesh = CorticalMesh::new();
    add_columns(&mut mesh, &columns)?;
    connect_all(&mut mesh, &connections)?;
    Ok(mesh)
}

/// Build a mesh from an explicit column population and a declarative
/// topology, materialized against the column ids in order (so positional
/// topologies map onto the columns positionally).
///
/// Errors with `Topology` if the topology does not fit the columns.
pub fn mesh_with_topology(columns: Vec<CorticalColumn>, topology: &TopologySpec) -> (r: Result<
    CorticalMesh,
    MeshError,
>)
    ensures
        built_from(r, topology_state(columns_view(columns@), *topology)),
{
    let mut ids: Vec<String> = Vec::new();
    let mut j: usize = 0;
    while j < columns.len()
        invariant
            0 <= j <= columns@.len(),
            ids_view(ids@) == ids_of(columns_view(columns@)).take(j as int),
        decreases columns@.len() - j,
    {
        let ghost before = ids@;
        ids.push(copy_string(&columns[j].id));
        assert(ids_view(ids@) =~= ids_view(before).push(columns@[j as int].id@));
        assert(ids_of(columns_view(columns@)).take(j + 1) =~= ids_of(columns_view(columns@)).take(j as int).push(
            columns@[j as int].id@,
        ));
        j = j + 1;
    }
    assert(ids_of(columns_view(columns@)).take(j as int) =~= ids_of(columns_view(columns@)));
    let connections = match topology.connections_for(ids.as_slice()) {
        Ok(c) => c,
        Err(e) => {
            return Err(MeshError::Topology(e));
        },
    };
    mesh_from_columns(columns, connections)
}

/// The reference mesh: the four named columns with the reference wiring.
pub fn default_mesh() -> (r: Result<CorticalMesh, MeshError>)
    ensures
        built_from(
            r,
            build_state(Seq::new(4, |k: int| replicated_column(k)), reference_edges()),
        ),
{
    let columns = default_columns();
    let pairs = default_connections();
    let mut connections: Vec<LateralConnection> = Vec::new();
    let mut j: usize = 0;
    while j < pairs.len()
        invariant
            pairs@.len() == 4,
            forall|k: int| 0 <= k < 4 ==> ((#[trigger] pairs@[k]).0@, pairs@[k].1@) == reference_edges()[k],
            0 <= j <= 4,
            edges_view(connections@) == reference_edges().take(j as int),
        decreases 4 - j,
    {
        let ghost before = connections@;
        connections.push(LateralConnection::new(pairs[j].0, pairs[j].1));
        assert(edges_view(connections@) =~= edges_view(before).push(reference_edges()[j as int]));
        assert(reference_edges().take(j + 1) =~= reference_edges().take(j as int).push(reference_edges()[j as int]));
        j = j + 1;
    }
    assert(reference_edges().take(4) =~= reference_edges());
    assert(columns_view(columns@) =~= Seq::new(4, |k: int| replicated_column(k)));
    mesh_from_columns(columns, connections)
}

proof fn lemma_routes_ranked(
    c: Seq<Candidate>,
    k: int,
    idx: Seq<usize>,
    names: Seq<String>,
    keys: Seq<u32>,
    r: Seq<RoutedView>,
)
    requires
        strings_view(names) == cand_ids(c),
        keys == cand_keys(c),
        ranked_prefix(keys, cand_ids(c), k, idx),
        r == idx.map_values(|i: usize| (names[i as int]@, keys[i as int], keys[i as int])),
    ensures
        ranked_routes(c, k, r),
{
    assert forall|j: int| 0 <= j < idx.len() implies names[idx[j] as int]@ == c[idx[j] as int].0 by {
        let i = idx[j] as int;
        assert(cand_keys(c).len() == c.len());
        assert(cand_ids(c).len() == c.len());
        assert(strings_view(names).len() == names.len());
        assert(0 <= i < c.len());
        assert(strings_view(names)[i] == names[i]@);
        assert(cand_ids(c)[i] == c[i].0);
    }
    assert(r =~= idx.map_values(|i: usize| (c[i as int].0, c[i as int].1, c[i as int].1)));
}

proof fn lemma_position_after_push(cols: Seq<ColumnView>, col: ColumnView)
    ensures
        forall|x: Seq<char>| #[trigger] index_of(ids_of(cols.push(col)), x) == match index_of(ids_of(cols), x) {
            Some(k) => Some(k),
            None => if x == col.id { Some(cols.len() as int) } else { None },
        },
{
    assert(ids_of(cols.push(col)).drop_last() =~= ids_of(cols));
}

// ---------------------------------------------------------------------------
// Laws
// ---------------------------------------------------------------------------

/// The sources `x` listens to among the edges, in edge order.
pub open spec fn sources_of(e: Seq<EdgeView>, x: Seq<char>) -> Seq<Seq<char>>
    decreases e.len(),
{
    if e.len() == 0 {
        Seq::empty()
    } else if e.last().0 == x {
        sources_of(e.drop_last(), x).push(e.last().1)
    } else {
        sources_of(e.drop_last(), x)
    }
}

/// The columns, each listening to nothing yet.
pub open spec fn fresh_state(cols: Seq<ColumnView>) -> MeshState {
    MeshState { columns: cols, sources: Seq::new(cols.len(), |k: int| Seq::<Seq<char>>::empty()) }
}

/// The columns, each listening to its sources among the edges.
pub open spec fn wired_state(cols: Seq<ColumnView>, e: Seq<EdgeView>) -> MeshState {
    MeshState { columns: cols, sources: Seq::new(cols.len(), |k: int| sources_of(e, cols[k].id)) }
}

proof fn lemma_sources_of_facts(e: Seq<EdgeView>, x: Seq<char>, y: Seq<char>)
    ensures
        sources_of(e, x).contains(y) ==> exists|j: int| 0 <= j < e.len() && e[j] == (x, y),
        sources_of(e, x).len() == out_degree(e, x),
    decreases e.len(),
{
    if e.len() > 0 {
        let d = e.drop_last();
        lemma_sources_of_facts(d, x, y);
        if sources_of(e, x).contains(y) {
            if sources_of(d, x).contains(y) {
                let j = choose|j: int| 0 <= j < d.len() && d[j] == (x, y);
                assert(e[j] == d[j]);
            } else {
                assert(e[e.len() - 1] == e.last());
                let s = sources_of(e, x);
                let i = choose|i: int| 0 <= i < s.len() && s[i] == y;
                if e.last().0 == x {
                    assert(i == s.len() - 1);
                }
            }
        }
    }
}

proof fn lemma_add_all_distinct(cols: Seq<ColumnView>, m: int)
    requires
        distinct_ids(ids_of(cols)),
        0 <= m <= cols.len(),
    ensures
        state_add_all(empty_state(), cols, m) == Ok::<MeshState, MeshFault>(fresh_state(cols.take(m))),
    decreases m,
{
    if m == 0 {
        assert(fresh_state(cols.take(0)).columns =~= empty_state().columns);
        assert(fresh_state(cols.take(0)).sources =~= empty_state().sources);
    } else {
        lemma_add_all_distinct(cols, m - 1);
        let s = fresh_state(cols.take(m - 1));
        let x = cols[m - 1].id;
        lemma_index_of_facts(ids_of(s.columns), x);
        if position(s, x) is Some {
            let p = position(s, x)->0;
            assert(ids_of(s.columns)[p] == cols[p].id);
            assert(ids_of(cols)[p] == cols[p].id && ids_of(cols)[m - 1] == x);
        }
        assert(s.columns.push(cols[m - 1]) =~= cols.take(m));
        assert(s.sources.push(Seq::empty()) =~= fresh_state(cols.take(m)).sources);
    }
}

proof fn lemma_connect_all_edges(cols: Seq<ColumnView>, e: Seq<EdgeView>, m: int)
    requires
        distinct_ids(ids_of(cols)),
        forall|k: int| 0 <= k < e.len() ==> ids_of(cols).contains((#[trigger] e[k]).0) && ids_of(cols).contains(e[k].1),
        forall|k: int, l: int| 0 <= k < l < e.len() ==> #[trigger] e[k] != #[trigger] e[l],
        0 <= m <= e.len(),
    ensures
        state_connect_all(fresh_state(cols), e, m) == Ok::<MeshState, MeshFault>(wired_state(cols, e.take(m))),
    decreases m,
{
    if m == 0 {
        assert(wired_state(cols, e.take(0)).sources =~= fresh_state(cols).sources);
    } else {
        lemma_connect_all_edges(cols, e, m - 1);
        let em = e.take(m - 1);
        let s = wired_state(cols, em);
        let (x, y) = e[m - 1];
        lemma_index_of_facts(ids_of(cols), x);
        lemma_index_of_facts(ids_of(cols), y);
        let f = position(s, x)->0;
        assert(ids_of(cols)[f] == cols[f].id);
        lemma_sources_of_facts(em, x, y);
        if s.sources[f].contains(y) {
            let j = choose|j: int| 0 <= j < em.len() && em[j] == (x, y);
            assert(e[j] == em[j]);
        }
        assert(e.take(m).drop_last() =~= em);
        assert(e.take(m).last() == e[m - 1]);
        let want = wired_state(cols, e.take(m));
        let got = MeshState { columns: s.columns, sources: s.sources.update(f, s.sources[f].push(y)) };
        assert forall|k: int| 0 <= k < cols.len() implies want.sources[k] == got.sources[k] by {
            if k != f {
                assert(ids_of(cols)[k] == cols[k].id);
                if k < f {
                    assert(ids_of(cols)[k] != ids_of(cols)[f]);
                } else {
                    assert(ids_of(cols)[f] != ids_of(cols)[k]);
                }
            }
        }
        assert(want.sources =~= got.sources);
    }
}

/// Building a mesh over a topology wires exactly the topology's
/// connections: whenever the topology materializes over the columns' ids,
/// the build succeeds, keeps the columns in order, and each column listens
/// to the sources of the edges naming it as listener, in edge order — as
/// many as the topology gives it.
pub proof fn law_topology_mesh_wiring(cols: Seq<ColumnView>, t: TopologySpec)
    requires
        topology_connections(t, ids_of(cols)) is Ok,
    ensures
        ({
            let e = topology_connections(t, ids_of(cols))->Ok_0;
            &&& topology_state(cols, t) == Ok::<MeshState, MeshFault>(wired_state(cols, e))
            &&& forall|k: int| 0 <= k < cols.len() ==> (#[trigger] wired_state(cols, e).sources[k]).len() == out_degree(e, cols[k].id)
        }),
{
    let ids = ids_of(cols);
    let e = topology_connections(t, ids)->Ok_0;
    assert(topology_index_edges(t, ids) is Ok);
    lemma_distinct_ids(ids);
    law_connections_are_simple(t, ids);
    lemma_add_all_distinct(cols, cols.len() as int);
    assert(cols.take(cols.len() as int) =~= cols);
    lemma_connect_all_edges(cols, e, e.len() as int);
    assert(e.take(e.len() as int) =~= e);
    assert forall|k: int| 0 <= k < cols.len() implies (#[trigger] wired_state(cols, e).sources[k]).len() == out_degree(
        e,
        cols[k].id,
    ) by {
        lemma_sources_of_facts(e, cols[k].id, cols[k].id);
    }
}

/// Connecting an edge a second time changes nothing.
pub proof fn law_connect_idempotent(st: MeshState, from: Seq<char>, to: Seq<char>)
    requires
        state_wf(st),
        state_connect(st, from, to) is Ok,
    ensures
        state_connect(state_connect(st, from, to)->Ok_0, from, to) == state_connect(st, from, to),
{
    let s1 = state_connect(st, from, to)->Ok_0;
    let f = position(st, from)->0;
    lemma_index_of_facts(ids_of(st.columns), from);
    assert(s1.columns == st.columns);
    if !st.sources[f].contains(to) {
        assert(s1.sources[f] == st.sources[f].push(to));
        assert(s1.sources[f][st.sources[f].len() as int] == to);
    }
}

/// While no column has a prediction (as on a freshly built mesh) no
/// listener hears anything, whatever the routing policy.
pub proof fn law_silent_until_predictions(st: MeshState, listener: Seq<char>, policy: RoutingPolicy, sel: LateralSelection)
    requires
        forall|k: int| 0 <= k < st.columns.len() ==> (#[trigger] st.columns[k]).last_prediction.len() == 0,
        selection_matches(policy, listener_candidates(st, listener), sel),
    ensures
        listener_candidates(st, listener).len() == 0,
        sel matches LateralSelection::Routed(v) && v@.len() == 0,
{
    lemma_candidates_silent(st, listener);
    let c = listener_candidates(st, listener);
    if let RoutingPolicy::ConfidenceTopK { k } = policy {
        if let LateralSelection::Routed(v) = sel {
            let idx = choose|idx: Seq<usize>|
                #[trigger] ranked_prefix(cand_keys(c), cand_ids(c), k as int, idx) && routed_view(v@)
                    == idx.map_values(|i: usize| (c[i as int].0, c[i as int].1, c[i as int].1));
            assert(routed_view(v@).len() == v@.len());
        }
    }
    if let RoutingPolicy::All = policy {
        if let LateralSelection::Routed(v) = sel {
            assert(routed_view(v@).len() == v@.len());
        }
    }
}

proof fn lemma_candidates_silent(st: MeshState, listener: Seq<char>)
    requires
        forall|k: int| 0 <= k < st.columns.len() ==> (#[trigger] st.columns[k]).last_prediction.len() == 0,
    ensures
        listener_candidates(st, listener).len() == 0,
{
    if let Some(k) = position(st, listener) {
        lemma_candidates_empty(st, st.sources[k]);
    }
}

proof fn lemma_candidates_empty(st: MeshState, srcs: Seq<Seq<char>>)
    requires
        forall|k: int| 0 <= k < st.columns.len() ==> (#[trigger] st.columns[k]).last_prediction.len() == 0,
    ensures
        candidates(st, srcs).len() == 0,
    decreases srcs.len(),
{
    if srcs.len() > 0 {
        lemma_candidates_empty(st, srcs.drop_last());
        lemma_index_of_facts(ids_of(st.columns), srcs.last());
    }
}

/// A zero budget routes nothing: `ConfidenceTopK { k: 0 }` and
/// `DiversityPreserving { k: 0 }` select no source, whatever the
/// candidates.
pub proof fn law_zero_budget_routes_nothing(c: Seq<Candidate>, sel: LateralSelection, diverse: bool)
    requires
        selection_matches(
            if diverse { RoutingPolicy::DiversityPreserving { k: 0 } } else { RoutingPolicy::ConfidenceTopK { k: 0 } },
            c,
            sel,
        ),
    ensures
        sel matches LateralSelection::Routed(v) && v@.len() == 0,
{
    if !diverse {
        if let LateralSelection::Routed(v) = sel {
            let idx = choose|idx: Seq<usize>|
                #[trigger] ranked_prefix(cand_keys(c), cand_ids(c), 0, idx) && routed_view(v@)
                    == idx.map_values(|i: usize| (c[i as int].0, c[i as int].1, c[i as int].1));
            assert(routed_view(v@).len() == v@.len());
        }
    }
}

} // verus!
