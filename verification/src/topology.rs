//! Pluggable lateral-mesh topologies.
//!
//! Topologies are pure graph functions over an ordered `N`-column id list.
//! Every connection is a `LateralConnection { listener_id, source_id }`: the
//! listener receives the source's prediction.
//!
//! The generators are specified on column *indices* (`Seq<(int, int)>`
//! edges) and [`TopologySpec::connections_for`] maps indices back to ids.
use vstd::prelude::*;

use crate::text::{chars_of, copy_string, decimal, own_str, push_chars, push_decimal, push_str, str_eq, string_of};

verus! {

// ---------------------------------------------------------------------------
// Connections and errors
// ---------------------------------------------------------------------------

/// A single directed lateral edge: `listener_id` receives `source_id`'s most
/// recent prediction on every tick after the first.
#[derive(Debug, PartialEq, Eq, Hash)]
pub struct LateralConnection {
    /// The column that receives a prediction.
    pub listener_id: String,
    /// The column whose prediction is injected.
    pub source_id: String,
}

/// An edge as a pair of id texts `(listener, source)`.
pub type EdgeView = (Seq<char>, Seq<char>);

impl View for LateralConnection {
    type V = EdgeView;

    open spec fn view(&self) -> EdgeView {
        (self.listener_id@, self.source_id@)
    }
}

impl LateralConnection {
    /// Construct a directed edge `listener` ← `source`.
    pub fn new(listener_id: &str, source_id: &str) -> (c: Self)
        ensures
            c@ == (listener_id@, source_id@),
    {
        LateralConnection { listener_id: own_str(listener_id), source_id: own_str(source_id) }
    }

    /// A copy of this edge.
    pub fn duplicate(&self) -> (c: Self)
        ensures
            c@ == self@,
    {
        LateralConnection {
            listener_id: copy_string(&self.listener_id),
            source_id: copy_string(&self.source_id),
        }
    }
}

/// The views of a list of connections.
pub open spec fn edges_view(v: Seq<LateralConnection>) -> Seq<EdgeView> {
    v.map_values(|c: LateralConnection| c@)
}

/// Errors raised while materializing a topology against a column-id list.
#[derive(Debug)]
pub enum TopologyError {
    /// The id list is empty.
    EmptyNodeSet,
    /// An id appeared more than once in the ordered id list (for a custom
    /// edge list: the same edge, rendered `listener<-source`, twice).
    DuplicateNodeId(String),
    /// A connection references an id not present in the id list.
    UnknownNodeId(String),
    /// A connection would have a column listen to itself.
    SelfEdge(String),
    /// A built-in generator emitted a duplicate edge.
    DuplicateEdge { listener: String, from: String },
    /// The requested geometry does not match the supplied column count.
    TorusGeometry { width: usize, height: usize, n: usize },
    /// A torus needs both dimensions >= 3 for a true 4-neighbor wraparound.
    TorusTooSmall { width: usize, height: usize },
    /// A parameter was out of its valid range.
    OutOfRange { parameter: &'static str, reason: &'static str },
    /// The node count is too small for the requested topology.
    TooFewNodes { topology: &'static str, min: usize, n: usize },
}

/// The mathematical content of a [`TopologyError`].
pub enum TopologyFault {
    EmptyNodeSet,
    DuplicateNodeId(Seq<char>),
    UnknownNodeId(Seq<char>),
    SelfEdge(Seq<char>),
    DuplicateEdge { listener: Seq<char>, from: Seq<char> },
    TorusGeometry { width: nat, height: nat, n: nat },
    TorusTooSmall { width: nat, height: nat },
    OutOfRange { parameter: Seq<char>, reason: Seq<char> },
    TooFewNodes { topology: Seq<char>, min: nat, n: nat },
}

impl View for TopologyError {
    type V = TopologyFault;

    open spec fn view(&self) -> TopologyFault {
        match self {
            TopologyError::EmptyNodeSet => TopologyFault::EmptyNodeSet,
            TopologyError::DuplicateNodeId(s) => TopologyFault::DuplicateNodeId(s@),
            TopologyError::UnknownNodeId(s) => TopologyFault::UnknownNodeId(s@),
            TopologyError::SelfEdge(s) => TopologyFault::SelfEdge(s@),
            TopologyError::DuplicateEdge { listener, from } => TopologyFault::DuplicateEdge {
                listener: listener@,
                from: from@,
            },
            TopologyError::TorusGeometry { width, height, n } => TopologyFault::TorusGeometry {
                width: *width as nat,
                height: *height as nat,
                n: *n as nat,
            },
            TopologyError::TorusTooSmall { width, height } => TopologyFault::TorusTooSmall {
                width: *width as nat,
                height: *height as nat,
            },
            TopologyError::OutOfRange { parameter, reason } => TopologyFault::OutOfRange {
                parameter: parameter@,
                reason: reason@,
            },
            TopologyError::TooFewNodes { topology, min, n } => TopologyFault::TooFewNodes {
                topology: topology@,
                min: *min as nat,
                n: *n as nat,
            },
        }
    }
}

/// Declarative description of a lateral mesh topology, materialized against
/// an ordered column-id list by [`TopologySpec::connections_for`].
#[derive(Debug, PartialEq)]
pub enum TopologySpec {
    /// A 1-D cycle. Each column listens to its predecessor; if
    /// `bidirectional` it also listens to its successor. Requires >= 2
    /// columns.
    Ring { bidirectional: bool },
    /// A 2-D toroidal grid (row-major, wraparound on both axes). Each column
    /// listens to its four cardinal neighbors. Requires `width * height`
    /// columns and both dimensions >= 3.
    Torus2d { width: usize, height: usize },
    /// Every column listens to every other column (`n*(n-1)` edges).
    /// Requires >= 2 columns.
    FullyConnected,
    /// A directed Watts-Strogatz small-world graph: a ring lattice where each
    /// column listens to its `degree` nearest neighbors, each lattice edge
    /// rewired to a new source when the seeded splitmix64 draw falls below
    /// the rewire probability. The probability is carried exactly as
    /// `rewire_threshold = ceil(p * 2^53)`: an edge is rewired when the
    /// draw's top 53 bits, as an integer, are below it (so `0` never
    /// rewires and `2^53` always does). Requires an even `degree` with
    /// `0 < degree < n` and `rewire_threshold <= 2^53`.
    SmallWorld { degree: usize, rewire_threshold: u64, seed: u64 },
    /// A caller-supplied edge list, validated for unknown ids, self-edges
    /// and duplicates.
    Custom(Vec<LateralConnection>),
}

/// `2^53`, the rewire threshold that always rewires.
pub const REWIRE_ALWAYS: u64 = 0x20_0000_0000_0000;

// ---------------------------------------------------------------------------
// Index-level helpers
// ---------------------------------------------------------------------------

/// `(i + d) mod n` for `i < n`, `d <= n`.
pub open spec fn plus_mod(i: int, d: int, n: int) -> int {
    if i + d < n { i + d } else { i + d - n }
}

/// `(i - d) mod n` for `i < n`, `d <= n`.
pub open spec fn minus_mod(i: int, d: int, n: int) -> int {
    if i >= d { i - d } else { i + n - d }
}

fn add_mod(i: usize, d: usize, n: usize) -> (r: usize)
    requires
        i < n,
        d <= n,
    ensures
        r == plus_mod(i as int, d as int, n as int),
{
    if d < n - i { i + d } else { d - (n - i) }
}

fn sub_mod(i: usize, d: usize, n: usize) -> (r: usize)
    requires
        i < n,
        d <= n,
    ensures
        r == minus_mod(i as int, d as int, n as int),
{
    if i >= d { i - d } else { n - (d - i) }
}

/// The id texts of an id list.
pub open spec fn ids_view(ids: Seq<String>) -> Seq<Seq<char>> {
    ids.map_values(|s: String| s@)
}

/// The first index `k < len` whose id already occurs before it.
pub open spec fn first_duplicate(ids: Seq<Seq<char>>, len: int) -> Option<int>
    decreases len,
{
    if len <= 0 {
        None
    } else {
        match first_duplicate(ids, len - 1) {
            Some(k) => Some(k),
            None => if exists|j: int| 0 <= j < len - 1 && #[trigger] ids[j] == ids[len - 1] {
                Some(len - 1)
            } else {
                None
            },
        }
    }
}

/// No id occurs twice.
pub open spec fn distinct_ids(ids: Seq<Seq<char>>) -> bool {
    forall|a: int, b: int| 0 <= a < b < ids.len() ==> ids[a] != ids[b]
}

/// The first index of `x` in `ids`, if any.
pub open spec fn index_of(ids: Seq<Seq<char>>, x: Seq<char>) -> Option<int>
    decreases ids.len(),
{
    if ids.len() == 0 {
        None
    } else {
        match index_of(ids.drop_last(), x) {
            Some(k) => Some(k),
            None => if ids.last() == x {
                Some(ids.len() - 1)
            } else {
                None
            },
        }
    }
}

proof fn lemma_first_duplicate_none(ids: Seq<Seq<char>>, len: int)
    requires
        0 <= len <= ids.len(),
        first_duplicate(ids, len) is None,
    ensures
        forall|a: int, b: int| 0 <= a < b < len ==> ids[a] != ids[b],
    decreases len,
{
    if len > 0 {
        lemma_first_duplicate_none(ids, len - 1);
        assert forall|a: int, b: int| 0 <= a < b < len implies ids[a] != ids[b] by {
            if b == len - 1 {
                assert(!(0 <= a < len - 1 && ids[a] == ids[len - 1]));
            }
        }
    }
}

proof fn lemma_first_duplicate_extend(ids: Seq<Seq<char>>, m: int, len: int)
    requires
        0 <= m <= len,
        first_duplicate(ids, m) is Some,
    ensures
        first_duplicate(ids, len) == first_duplicate(ids, m),
    decreases len - m,
{
    if len > m {
        lemma_first_duplicate_extend(ids, m, len - 1);
    }
}

// ---------------------------------------------------------------------------
// Edge lists on indices
// ---------------------------------------------------------------------------

/// An index edge `(listener, source)`.
pub type IndexEdge = (int, int);

/// The concatenation `f(0) + f(1) + ... + f(m - 1)`.
pub open spec fn rows(f: spec_fn(int) -> Seq<IndexEdge>, m: int) -> Seq<IndexEdge>
    decreases m,
{
    if m <= 0 {
        Seq::empty()
    } else {
        rows(f, m - 1) + f(m - 1)
    }
}

/// Every edge has listener `i` and a source other than `i` below `n`, and
/// no source occurs twice.
pub open spec fn listener_row(row: Seq<IndexEdge>, i: int, n: int) -> bool {
    &&& forall|k: int| 0 <= k < row.len() ==> (#[trigger] row[k]).0 == i && 0 <= row[k].1 < n
        && row[k].1 != i
    &&& forall|k: int, l: int| 0 <= k < l < row.len() ==> (#[trigger] row[k]).1 != (#[trigger] row[l]).1
}

/// Edges over `n` columns: endpoints in range, no self-edges, grouped by
/// non-decreasing listener, and no source repeated within a listener (so
/// no edge occurs twice).
pub open spec fn well_formed_edges(e: Seq<IndexEdge>, n: int) -> bool {
    &&& forall|k: int| 0 <= k < e.len() ==> 0 <= (#[trigger] e[k]).0 < n && 0 <= e[k].1 < n
        && e[k].0 != e[k].1
    &&& forall|k: int, l: int|
        0 <= k < l < e.len() ==> (#[trigger] e[k]).0 <= (#[trigger] e[l]).0 && (e[k].0 == e[l].0
            ==> e[k].1 != e[l].1)
}

/// No edge occurs twice.
pub open spec fn no_repeated_edge(e: Seq<IndexEdge>) -> bool {
    forall|k: int, l: int| 0 <= k < l < e.len() ==> #[trigger] e[k] != #[trigger] e[l]
}

proof fn lemma_rows_well_formed(f: spec_fn(int) -> Seq<IndexEdge>, m: int, n: int)
    requires
        0 <= m <= n,
        forall|i: int| 0 <= i < m ==> listener_row(#[trigger] f(i), i, n),
    ensures
        well_formed_edges(rows(f, m), n),
        forall|k: int| 0 <= k < rows(f, m).len() ==> (#[trigger] rows(f, m)[k]).0 < m,
    decreases m,
{
    if m > 0 {
        lemma_rows_well_formed(f, m - 1, n);
        let a = rows(f, m - 1);
        let b = f(m - 1);
        assert(listener_row(b, m - 1, n));
        let e = a + b;
        assert(rows(f, m) == e);
        assert forall|k: int| 0 <= k < e.len() implies 0 <= (#[trigger] e[k]).0 < n && 0 <= e[k].1
            < n && e[k].0 != e[k].1 && e[k].0 < m by {
            if k < a.len() {
                assert(e[k] == a[k]);
            } else {
                assert(e[k] == b[k - a.len()]);
            }
        }
        assert forall|k: int, l: int| 0 <= k < l < e.len() implies (#[trigger] e[k]).0 <= (
        #[trigger] e[l]).0 && (e[k].0 == e[l].0 ==> e[k].1 != e[l].1) by {
            if l < a.len() {
                assert(e[k] == a[k] && e[l] == a[l]);
            } else if k < a.len() {
                assert(e[k] == a[k] && e[l] == b[l - a.len()]);
            } else {
                assert(e[k] == b[k - a.len()] && e[l] == b[l - a.len()]);
            }
        }
    }
}

proof fn lemma_well_formed_no_repeat(e: Seq<IndexEdge>, n: int)
    requires
        well_formed_edges(e, n),
    ensures
        no_repeated_edge(e),
{
    assert forall|k: int, l: int| 0 <= k < l < e.len() implies #[trigger] e[k] != #[trigger] e[l] by {
        assert(e[k].0 <= e[l].0 && (e[k].0 == e[l].0 ==> e[k].1 != e[l].1));
    }
}

/// The one-edge piece `(i, j)` when `keep(j)`, else nothing.
pub open spec fn keep_piece(i: int, keep: spec_fn(int) -> bool) -> spec_fn(int) -> Seq<IndexEdge> {
    |j: int| if keep(j) { seq![(i, j)] } else { Seq::empty() }
}

/// Listener `i`'s edges to every `j < n` with `keep(j)`, in ascending `j`.
pub open spec fn selected_row(i: int, n: int, keep: spec_fn(int) -> bool) -> Seq<IndexEdge> {
    rows(keep_piece(i, keep), n)
}

/// The number of `j < m` with `keep(j)`.
pub open spec fn count_kept(keep: spec_fn(int) -> bool, m: int) -> nat
    decreases m,
{
    if m <= 0 {
        0
    } else {
        count_kept(keep, m - 1) + if keep(m - 1) { 1nat } else { 0nat }
    }
}

proof fn lemma_selected_row(i: int, m: int, keep: spec_fn(int) -> bool)
    requires
        0 <= m,
    ensures
        rows(keep_piece(i, keep), m).len() == count_kept(keep, m),
        forall|k: int|
            0 <= k < rows(keep_piece(i, keep), m).len() ==> (#[trigger] rows(keep_piece(i, keep), m)[k]).0
                == i && 0 <= rows(keep_piece(i, keep), m)[k].1 < m && keep(
                rows(keep_piece(i, keep), m)[k].1,
            ),
        forall|k: int, l: int|
            0 <= k < l < rows(keep_piece(i, keep), m).len() ==> (#[trigger] rows(
                keep_piece(i, keep),
                m,
            )[k]).1 < (#[trigger] rows(keep_piece(i, keep), m)[l]).1,
    decreases m,
{
    if m > 0 {
        lemma_selected_row(i, m - 1, keep);
        let a = rows(keep_piece(i, keep), m - 1);
        let b = keep_piece(i, keep)(m - 1);
        let e = a + b;
        assert(rows(keep_piece(i, keep), m) == e);
        assert forall|k: int| 0 <= k < e.len() implies (#[trigger] e[k]).0 == i && 0 <= e[k].1 < m
            && keep(e[k].1) by {
            if k < a.len() {
                assert(e[k] == a[k]);
            } else {
                assert(e[k] == b[k - a.len()]);
            }
        }
        assert forall|k: int, l: int| 0 <= k < l < e.len() implies (#[trigger] e[k]).1 < (
        #[trigger] e[l]).1 by {
            if l < a.len() {
                assert(e[k] == a[k] && e[l] == a[l]);
            } else if k < a.len() {
                assert(e[k] == a[k] && e[l] == b[l - a.len()]);
            } else {
                assert(e[k] == b[k - a.len()] && e[l] == b[l - a.len()]);
            }
        }
    }
}

proof fn lemma_selected_row_listener(i: int, n: int, keep: spec_fn(int) -> bool)
    requires
        0 <= i < n,
        !keep(i),
    ensures
        listener_row(selected_row(i, n, keep), i, n),
        selected_row(i, n, keep).len() == count_kept(keep, n),
{
    lemma_selected_row(i, n, keep);
    let r = selected_row(i, n, keep);
    assert forall|k: int, l: int| 0 <= k < l < r.len() implies (#[trigger] r[k]).1 != (
    #[trigger] r[l]).1 by {
        assert(r[k].1 < r[l].1);
    }
}

/// Appends listener `i`'s edges to every `j < n` accepted by `keep`.
fn push_selected_row(out: &mut Vec<(usize, usize)>, i: usize, n: usize, keep: &Vec<bool>)
    requires
        keep@.len() == n,
    ensures
        index_edges(final(out)@) == index_edges(old(out)@) + selected_row(
            i as int,
            n as int,
            keep_fn(keep@),
        ),
{
    let ghost before = index_edges(out@);
    let mut j: usize = 0;
    while j < n
        invariant
            0 <= j <= n == keep@.len(),
            index_edges(out@) == before + rows(keep_piece(i as int, keep_fn(keep@)), j as int),
        decreases n - j,
    {
        let ghost prev = out@;
        if keep[j] {
            out.push((i, j));
        }
        proof {
            let f = keep_piece(i as int, keep_fn(keep@));
            assert(rows(f, j + 1) == rows(f, j as int) + f(j as int));
            assert(keep_fn(keep@)(j as int) == keep@[j as int]);
            if keep@[j as int] {
                assert(out@ == prev.push((i, j)));
                assert(index_edges(out@) =~= index_edges(prev).push((i as int, j as int)));
            } else {
                assert(out@ == prev);
            }
            assert(index_edges(out@) =~= before + rows(f, j + 1));
        }
        j = j + 1;
    }
}

/// Membership flags as a predicate on indices.
pub open spec fn keep_fn(keep: Seq<bool>) -> spec_fn(int) -> bool {
    |j: int| 0 <= j < keep.len() && keep[j]
}

/// Exec index edges as integer pairs.
pub open spec fn index_edges(v: Seq<(usize, usize)>) -> Seq<IndexEdge> {
    v.map_values(|e: (usize, usize)| (e.0 as int, e.1 as int))
}

// ---------------------------------------------------------------------------
// Ring
// ---------------------------------------------------------------------------

/// Column `i` of a ring listens to its predecessor, and to its successor
/// when bidirectional.
pub open spec fn ring_row(n: int, bidirectional: bool, i: int) -> Seq<IndexEdge> {
    if bidirectional {
        seq![(i, minus_mod(i, 1, n)), (i, plus_mod(i, 1, n))]
    } else {
        seq![(i, minus_mod(i, 1, n))]
    }
}

/// Directed ring: column `i` listens to `(i-1) mod n`; if bidirectional it
/// also listens to `(i+1) mod n`. For `n == 2` bidirectional, predecessor
/// and successor coincide and the two distinct edges are emitted once.
pub open spec fn ring_edges(n: int, bidirectional: bool) -> Seq<IndexEdge> {
    if n == 2 && bidirectional {
        seq![(0, 1), (1, 0)]
    } else {
        rows(|i: int| ring_row(n, bidirectional, i), n)
    }
}

fn ring_index_edges(n: usize, bidirectional: bool) -> (out: Vec<(usize, usize)>)
    requires
        n >= 2,
    ensures
        index_edges(out@) == ring_edges(n as int, bidirectional),
{
    let mut out: Vec<(usize, usize)> = Vec::new();
    if n == 2 && bidirectional {
        out.push((0, 1));
        out.push((1, 0));
        assert(index_edges(out@) =~= ring_edges(n as int, bidirectional));
        return out;
    }
    let mut i: usize = 0;
    while i < n
        invariant
            0 <= i <= n,
            n >= 2,
            !(n == 2 && bidirectional),
            index_edges(out@) == rows(|i: int| ring_row(n as int, bidirectional, i), i as int),
        decreases n - i,
    {
        let pred = sub_mod(i, 1, n);
        out.push((i, pred));
        if bidirectional {
            let succ = add_mod(i, 1, n);
            out.push((i, succ));
        }
        proof {
            assert(index_edges(out@) =~= rows(
                |i: int| ring_row(n as int, bidirectional, i),
                i + 1,
            ));
        }
        i = i + 1;
    }
    out
}

proof fn lemma_ring_well_formed(n: int, bidirectional: bool)
    requires
        n >= 2,
    ensures
        well_formed_edges(ring_edges(n, bidirectional), n),
{
    if n == 2 && bidirectional {
        let e = ring_edges(n, bidirectional);
        assert(e.len() == 2 && e[0] == (0int, 1int) && e[1] == (1int, 0int));
    } else {
        let f = |i: int| ring_row(n, bidirectional, i);
        assert forall|i: int| 0 <= i < n implies listener_row(#[trigger] f(i), i, n) by {
            let r = f(i);
            assert(r == ring_row(n, bidirectional, i));
        }
        lemma_rows_well_formed(f, n, n);
    }
}

// ---------------------------------------------------------------------------
// Fully connected
// ---------------------------------------------------------------------------

/// The sources of column `i` in a complete graph over `n` columns.
pub open spec fn fc_keep(n: int, i: int) -> spec_fn(int) -> bool {
    |j: int| 0 <= j < n && j != i
}

/// Every column listens to every other column, listener-major, sources
/// ascending.
pub open spec fn fully_connected_edges(n: int) -> Seq<IndexEdge> {
    rows(|i: int| selected_row(i, n, fc_keep(n as int, i)), n)
}

fn fully_connected_index_edges(n: usize) -> (out: Vec<(usize, usize)>)
    requires
        n >= 2,
    ensures
        index_edges(out@) == fully_connected_edges(n as int),
{
    let mut out: Vec<(usize, usize)> = Vec::new();
    let mut i: usize = 0;
    while i < n
        invariant
            0 <= i <= n,
            index_edges(out@) == rows(
                |i: int| selected_row(i, n as int, fc_keep(n as int, i)),
                i as int,
            ),
        decreases n - i,
    {
        let mut keep: Vec<bool> = Vec::new();
        let mut j: usize = 0;
        while j < n
            invariant
                0 <= j <= n,
                keep@.len() == j,
                forall|t: int| 0 <= t < j ==> keep@[t] == (t != i),
            decreases n - j,
        {
            keep.push(j != i);
            j = j + 1;
        }
        push_selected_row(&mut out, i, n, &keep);
        proof {
            assert(keep_fn(keep@) =~= fc_keep(n as int, i as int));
            let f = |i: int| selected_row(i, n as int, fc_keep(n as int, i));
            assert(rows(f, i + 1) == rows(f, i as int) + f(i as int));
            assert(index_edges(out@) =~= rows(
                |i: int| selected_row(i, n as int, fc_keep(n as int, i)),
                i + 1,
            ));
        }
        i = i + 1;
    }
    out
}

proof fn lemma_fully_connected_well_formed(n: int)
    requires
        n >= 2,
    ensures
        well_formed_edges(fully_connected_edges(n), n),
{
    let f = |i: int| selected_row(i, n, fc_keep(n, i));
    assert forall|i: int| 0 <= i < n implies listener_row(#[trigger] f(i), i, n) by {
        lemma_selected_row_listener(i, n, fc_keep(n, i));
    }
    lemma_rows_well_formed(f, n, n);
}

// ---------------------------------------------------------------------------
// Torus
// ---------------------------------------------------------------------------

/// Column `k` of a `width x height` row-major torus listens to its up,
/// down, left and right neighbors (wrapping on both axes).
pub open spec fn torus_cell(w: int, h: int, k: int) -> Seq<IndexEdge> {
    let n = w * h;
    let r = k / w;
    let c = k % w;
    let up = if r > 0 { k - w } else { k + n - w };
    let down = if r < h - 1 { k + w } else { k + w - n };
    let left = if c > 0 { k - 1 } else { k + w - 1 };
    let right = if c < w - 1 { k + 1 } else { k + 1 - w };
    seq![(k, up), (k, down), (k, left), (k, right)]
}

/// The torus edges, listener-major.
pub open spec fn torus_edges(w: int, h: int) -> Seq<IndexEdge> {
    rows(|k: int| torus_cell(w, h, k), w * h)
}

proof fn lemma_torus_position(w: int, h: int, r: int, c: int)
    requires
        w >= 3,
        h >= 3,
        0 <= r < h,
        0 <= c < w,
    ensures
        0 <= r * w + c < w * h,
        (r * w + c) / w == r,
        (r * w + c) % w == c,
        r > 0 ==> r * w + c >= w,
        r == 0 ==> r * w + c < w,
        r < h - 1 ==> r * w + c + w < w * h,
        r == h - 1 ==> r * w + c >= w * h - w,
        w * h >= 3 * w,
        (r + 1) * w == r * w + w,
        r * w + w <= w * h,
{
    vstd::arithmetic::div_mod::lemma_fundamental_div_mod_converse(r * w + c, w, r, c);
    assert(r * w + c < w * h) by (nonlinear_arith)
        requires
            0 <= r < h,
            0 <= c < w,
    ;
    assert(r > 0 ==> r * w + c >= w) by (nonlinear_arith)
        requires
            0 <= c,
            w >= 0,
    ;
    assert(r < h - 1 ==> r * w + c + w < w * h) by (nonlinear_arith)
        requires
            0 <= c < w,
            0 <= r,
    ;
    assert(r == h - 1 ==> r * w + c >= w * h - w) by (nonlinear_arith)
        requires
            0 <= c,
    ;
    assert(w * h >= 3 * w) by (nonlinear_arith)
        requires
            h >= 3,
            w >= 0,
    ;
    assert((r + 1) * w == r * w + w) by (nonlinear_arith);
    assert(r * w + w <= w * h) by (nonlinear_arith)
        requires
            r < h,
            w >= 0,
    ;
}

proof fn lemma_torus_index(w: int, h: int, k: int)
    requires
        w >= 3,
        h >= 3,
        0 <= k < w * h,
    ensures
        0 <= k / w < h,
        0 <= k % w < w,
        k == (k / w) * w + k % w,
{
    vstd::arithmetic::div_mod::lemma_fundamental_div_mod(k, w);
    assert(0 <= k % w < w);
    assert(k / w >= 0);
    assert(k == (k / w) * w + k % w) by (nonlinear_arith)
        requires
            k == w * (k / w) + (k % w),
    ;
    assert(k / w < h) by (nonlinear_arith)
        requires
            k == (k / w) * w + k % w,
            0 <= k % w,
            k < w * h,
            w > 0,
    ;
}

proof fn lemma_torus_cell_row(w: int, h: int, k: int)
    requires
        w >= 3,
        h >= 3,
        0 <= k < w * h,
    ensures
        listener_row(torus_cell(w, h, k), k, w * h),
{
    lemma_torus_index(w, h, k);
    let r = k / w;
    let c = k % w;
    lemma_torus_position(w, h, r, c);
    let n = w * h;
    let up = if r > 0 { k - w } else { k + n - w };
    let down = if r < h - 1 { k + w } else { k + w - n };
    let left = if c > 0 { k - 1 } else { k + w - 1 };
    let right = if c < w - 1 { k + 1 } else { k + 1 - w };
    let cell = torus_cell(w, h, k);
    assert(cell =~= seq![(k, up), (k, down), (k, left), (k, right)]);
    assert(0 <= up < n && up != k);
    assert(0 <= down < n && down != k);
    assert(0 <= left < n && left != k);
    assert(0 <= right < n && right != k);
    assert(up != down);
    assert(up != left && up != right);
    assert(down != left && down != right);
    assert(left != right);
    assert forall|a: int, b: int| 0 <= a < b < cell.len() implies (#[trigger] cell[a]).1 != (
    #[trigger] cell[b]).1 by {}
}

proof fn lemma_torus_well_formed(w: int, h: int)
    requires
        w >= 3,
        h >= 3,
    ensures
        well_formed_edges(torus_edges(w, h), w * h),
{
    let f = |k: int| torus_cell(w, h, k);
    assert forall|k: int| 0 <= k < w * h implies listener_row(#[trigger] f(k), k, w * h) by {
        lemma_torus_cell_row(w, h, k);
    }
    lemma_torus_position(w, h, 0, 0);
    lemma_rows_well_formed(f, w * h, w * h);
}

fn torus_index_edges(n: usize, w: usize, h: usize) -> (out: Vec<(usize, usize)>)
    requires
        w >= 3,
        h >= 3,
        w * h == n,
    ensures
        index_edges(out@) == torus_edges(w as int, h as int),
{
    let mut out: Vec<(usize, usize)> = Vec::new();
    let mut k: usize = 0;
    let mut r: usize = 0;
    proof {
        lemma_torus_position(w as int, h as int, 0, 0);
    }
    while r < h
        invariant
            w >= 3,
            h >= 3,
            w * h == n,
            n >= 3 * w,
            0 <= r <= h,
            k == r * w,
            index_edges(out@) == rows(|k: int| torus_cell(w as int, h as int, k), k as int),
        decreases h - r,
    {
        let mut c: usize = 0;
        while c < w
            invariant
                w >= 3,
                h >= 3,
                w * h == n,
                n >= 3 * w,
                0 <= r < h,
                0 <= c <= w,
                k == r * w + c,
                index_edges(out@) == rows(|k: int| torus_cell(w as int, h as int, k), k as int),
            decreases w - c,
        {
            proof {
                lemma_torus_position(w as int, h as int, r as int, c as int);
            }
            let up = if r > 0 { k - w } else { k + (n - w) };
            let down = if r < h - 1 { k + w } else { k - (n - w) };
            let left = if c > 0 { k - 1 } else { k + (w - 1) };
            let right = if c < w - 1 { k + 1 } else { k - (w - 1) };
            let ghost prev = out@;
            out.push((k, up));
            out.push((k, down));
            out.push((k, left));
            out.push((k, right));
            proof {
                let f = |k: int| torus_cell(w as int, h as int, k);
                assert(rows(f, k + 1) == rows(f, k as int) + f(k as int));
                assert(index_edges(out@) =~= index_edges(prev) + f(k as int));
            }
            k = k + 1;
            c = c + 1;
        }
        proof {
            lemma_torus_position(w as int, h as int, r as int, 0);
        }
        r = r + 1;
    }
    assert(k == w * h) by (nonlinear_arith)
        requires
            k == r * w,
            r == h,
    ;
    out
}

// ---------------------------------------------------------------------------
// Small world (seeded splitmix64 Watts-Strogatz)
// ---------------------------------------------------------------------------

/// The splitmix64 state increment.
pub open spec fn splitmix_advance(state: u64) -> u64 {
    state.wrapping_add(0x9E37_79B9_7F4A_7C15u64)
}

/// The splitmix64 output mix of an advanced state.
pub open spec fn splitmix_mix(z: u64) -> u64 {
    let z1 = (z ^ (z >> 30u64)).wrapping_mul(0xBF58_476D_1CE4_E5B9u64);
    let z2 = (z1 ^ (z1 >> 27u64)).wrapping_mul(0x94D0_49BB_1331_11EBu64);
    z2 ^ (z2 >> 31u64)
}

/// Deterministic splitmix64 generator — reproducible from a `u64` seed.
pub struct Prng {
    pub state: u64,
}

impl Prng {
    /// A generator seeded with `seed`.
    pub fn new(seed: u64) -> (p: Self)
        ensures
            p.state == seed,
    {
        Prng { state: seed }
    }

    /// The next 64-bit output.
    pub fn next_u64(&mut self) -> (r: u64)
        ensures
            final(self).state == splitmix_advance(old(self).state),
            r == splitmix_mix(final(self).state),
    {
        self.state = self.state.wrapping_add(0x9E37_79B9_7F4A_7C15);
        let mut z = self.state;
        z = (z ^ (z >> 30)).wrapping_mul(0xBF58_476D_1CE4_E5B9);
        z = (z ^ (z >> 27)).wrapping_mul(0x94D0_49BB_1331_11EB);
        z ^ (z >> 31)
    }

    /// Index in `[0, n)`: the next output reduced modulo `n`.
    pub fn range(&mut self, n: usize) -> (r: usize)
        requires
            n > 0,
        ensures
            final(self).state == splitmix_advance(old(self).state),
            r as int == splitmix_mix(final(self).state) as int % (n as int),
    {
        let x = self.next_u64();
        let m = n as u64;
        (x % m) as usize
    }

    /// The top 53 bits of the next output: the numerator of a uniform draw
    /// in `[0, 1)` with denominator `2^53`.
    pub fn next_unit53(&mut self) -> (r: u64)
        ensures
            final(self).state == splitmix_advance(old(self).state),
            r == splitmix_mix(final(self).state) >> 11u64,
    {
        let x = self.next_u64();
        x >> 11
    }
}

/// The `k`-th ring-lattice neighbor of column `i`: the lattice lists
/// `i+1, i-1, i+2, i-2, ...` (mod `n`).
pub open spec fn lattice_neighbor(n: int, i: int, k: int) -> int {
    if k % 2 == 0 {
        plus_mod(i, k / 2 + 1, n)
    } else {
        minus_mod(i, k / 2 + 1, n)
    }
}

/// Column `i`'s ring-lattice sources for the first `d` distances.
pub open spec fn lattice_members(n: int, i: int, d: int) -> Seq<bool>
    decreases d,
{
    if d <= 0 {
        Seq::new(n as nat, |s: int| false)
    } else {
        lattice_members(n, i, d - 1).update(plus_mod(i, d, n), true).update(minus_mod(i, d, n), true)
    }
}

/// How many draws a rewire may spend looking for a free source.
pub open spec fn rewire_attempts(n: int) -> int {
    if n <= usize::MAX / 2 { 2 * n } else { usize::MAX as int }
}

/// Draw candidates until one is neither `i` nor already a source, at most
/// `attempts` times. Returns the generator state and the chosen source.
pub open spec fn pick_new_source(state: u64, n: int, i: int, member: Seq<bool>, attempts: int) -> (u64, Option<int>)
    decreases attempts,
{
    if attempts <= 0 {
        (state, None)
    } else {
        let next = splitmix_advance(state);
        let cand = splitmix_mix(next) as int % n;
        if cand != i && !member[cand] {
            (next, Some(cand))
        } else {
            pick_new_source(next, n, i, member, attempts - 1)
        }
    }
}

/// Process lattice position `k` of column `i`: if that neighbor is still a
/// source, draw; below the threshold, move the edge to a fresh source (or
/// keep it when none is found).
pub open spec fn rewire_step(state: u64, member: Seq<bool>, n: int, i: int, threshold: u64, k: int) -> (u64, Seq<bool>) {
    let s = lattice_neighbor(n, i, k);
    if !member[s] {
        (state, member)
    } else {
        let next = splitmix_advance(state);
        if (splitmix_mix(next) >> 11u64) < threshold {
            let (after, chosen) = pick_new_source(next, n, i, member, rewire_attempts(n));
            match chosen {
                Some(t) => (after, member.update(s, false).update(t, true)),
                None => (after, member),
            }
        } else {
            (next, member)
        }
    }
}

/// Column `i`'s rewiring over its first `k` lattice positions.
pub open spec fn rewire_listener(state: u64, member: Seq<bool>, n: int, i: int, threshold: u64, k: int) -> (u64, Seq<bool>)
    decreases k,
{
    if k <= 0 {
        (state, member)
    } else {
        let (st, m) = rewire_listener(state, member, n, i, threshold, k - 1);
        rewire_step(st, m, n, i, threshold, k - 1)
    }
}

/// Sources of the first `m` columns, in column order, sharing one
/// generator seeded with `seed`.
pub open spec fn small_world_members(seed: u64, n: int, half: int, threshold: u64, m: int) -> (u64, Seq<Seq<bool>>)
    decreases m,
{
    if m <= 0 {
        (seed, Seq::empty())
    } else {
        let (st, ms) = small_world_members(seed, n, half, threshold, m - 1);
        let (st2, mem) = rewire_listener(st, lattice_members(n, m - 1, half), n, m - 1, threshold, 2 * half);
        (st2, ms.push(mem))
    }
}

/// The small-world edges: listener-major, sources ascending.
pub open spec fn small_world_edges(n: int, degree: int, threshold: u64, seed: u64) -> Seq<IndexEdge> {
    let members = small_world_members(seed, n, degree / 2, threshold, n).1;
    rows(|i: int| selected_row(i, n, keep_fn(members[i])), n)
}

fn pick_source(rng: &mut Prng, n: usize, i: usize, member: &Vec<bool>, attempts: usize) -> (r: Option<usize>)
    requires
        n > 0,
        member@.len() == n,
    ensures
        ({
            let (st, chosen) = pick_new_source(old(rng).state, n as int, i as int, member@, attempts as int);
            &&& final(rng).state == st
            &&& match r {
                Some(t) => chosen == Some(t as int),
                None => chosen is None,
            }
        }),
{
    let mut left = attempts;
    while left > 0
        invariant
            n > 0,
            member@.len() == n,
            pick_new_source(old(rng).state, n as int, i as int, member@, attempts as int)
                == pick_new_source(rng.state, n as int, i as int, member@, left as int),
        decreases left,
    {
        let cand = rng.range(n);
        if cand != i && !member[cand] {
            return Some(cand);
        }
        left = left - 1;
    }
    None
}

/// Column `i`'s ring-lattice source flags.
fn lattice_row(n: usize, i: usize, half: usize) -> (member: Vec<bool>)
    requires
        2 * half < n,
        i < n,
    ensures
        member@ == lattice_members(n as int, i as int, half as int),
        member@.len() == n,
{
    let mut member: Vec<bool> = Vec::new();
    let mut s: usize = 0;
    while s < n
        invariant
            0 <= s <= n,
            member@ == Seq::new(s as nat, |t: int| false),
        decreases n - s,
    {
        member.push(false);
        s = s + 1;
        assert(member@ =~= Seq::new(s as nat, |t: int| false));
    }
    let mut d: usize = 1;
    while d <= half
        invariant
            1 <= d <= half + 1,
            2 * half < n,
            i < n,
            member@ == lattice_members(n as int, i as int, d - 1),
        decreases half + 1 - d,
    {
        proof {
            lemma_lattice_members_len(n as int, i as int, d - 1);
        }
        let p = add_mod(i, d, n);
        let q = sub_mod(i, d, n);
        member.set(p, true);
        member.set(q, true);
        d = d + 1;
    }
    proof {
        lemma_lattice_members_len(n as int, i as int, half as int);
    }
    member
}

/// Rewires column `i`'s lattice sources in place.
fn rewire_row(rng: &mut Prng, member: &mut Vec<bool>, n: usize, i: usize, half: usize, threshold: u64, max_attempts: usize)
    requires
        2 * half < n,
        i < n,
        old(member)@.len() == n,
        max_attempts == rewire_attempts(n as int),
    ensures
        (final(rng).state, final(member)@) == rewire_listener(old(rng).state, old(member)@, n as int, i as int, threshold, 2 * half),
        final(member)@.len() == n,
{
    let mut k: usize = 0;
    while k < 2 * half
        invariant
            0 <= k <= 2 * half,
            2 * half < n,
            i < n,
            member@.len() == n,
            max_attempts == rewire_attempts(n as int),
            (rng.state, member@) == rewire_listener(old(rng).state, old(member)@, n as int, i as int, threshold, k as int),
        decreases 2 * half - k,
    {
        let dist = k / 2 + 1;
        let s = if k % 2 == 0 { add_mod(i, dist, n) } else { sub_mod(i, dist, n) };
        assert(s as int == lattice_neighbor(n as int, i as int, k as int));
        if member[s] {
            let draw = rng.next_unit53();
            if draw < threshold {
                let ghost st = rng.state;
                let chosen = pick_source(rng, n, i, member, max_attempts);
                match chosen {
                    Some(t) => {
                        proof {
                            lemma_pick_in_range(st, n as int, i as int, member@, max_attempts as int);
                        }
                        member.set(s, false);
                        member.set(t, true);
                    },
                    None => {},
                }
            }
        }
        k = k + 1;
    }
}

fn small_world_index_edges(n: usize, degree: usize, threshold: u64, seed: u64) -> (out: Vec<(usize, usize)>)
    requires
        n >= 2,
        degree > 0,
        degree % 2 == 0,
        degree < n,
    ensures
        index_edges(out@) == small_world_edges(n as int, degree as int, threshold, seed),
{
    let half = degree / 2;
    let max_attempts: usize = if n <= usize::MAX / 2 { 2 * n } else { usize::MAX };
    let mut rng = Prng::new(seed);
    let mut out: Vec<(usize, usize)> = Vec::new();
    let ghost mut members: Seq<Seq<bool>> = Seq::empty();
    let mut i: usize = 0;
    while i < n
        invariant
            0 <= i <= n,
            half == degree / 2,
            2 * half < n,
            max_attempts == rewire_attempts(n as int),
            members.len() == i,
            (rng.state, members) == small_world_members(seed, n as int, half as int, threshold, i as int),
            index_edges(out@) == rows(|i: int| selected_row(i, n as int, keep_fn(members[i])), i as int),
        decreases n - i,
    {
        let mut member = lattice_row(n, i, half);
        rewire_row(&mut rng, &mut member, n, i, half, threshold, max_attempts);
        let ghost mem = member@;
        push_selected_row(&mut out, i, n, &member);
        proof {
            let ghost old_members = members;
            members = members.push(mem);
            let f = |i: int| selected_row(i, n as int, keep_fn(members[i]));
            let g = |i: int| selected_row(i, n as int, keep_fn(old_members[i]));
            assert forall|j: int| 0 <= j < i implies #[trigger] f(j) == g(j) by {
                assert(members[j] == old_members[j]);
            }
            lemma_rows_agree(f, g, i as int);
            assert(rows(f, i + 1) == rows(f, i as int) + f(i as int));
        }
        i = i + 1;
    }
    out
}

proof fn lemma_pick_in_range(state: u64, n: int, i: int, member: Seq<bool>, attempts: int)
    requires
        n > 0,
        member.len() == n,
    ensures
        pick_new_source(state, n, i, member, attempts).1 matches Some(t) ==> 0 <= t < n && t != i
            && !member[t],
    decreases attempts,
{
    if attempts > 0 {
        lemma_pick_in_range(splitmix_advance(state), n, i, member, attempts - 1);
    }
}

proof fn lemma_lattice_members_len(n: int, i: int, d: int)
    requires
        0 <= i < n,
        d <= n,
    ensures
        lattice_members(n, i, d).len() == n,
    decreases d,
{
    if d > 0 {
        lemma_lattice_members_len(n, i, d - 1);
    }
}

proof fn lemma_rows_agree(f: spec_fn(int) -> Seq<IndexEdge>, g: spec_fn(int) -> Seq<IndexEdge>, m: int)
    requires
        forall|j: int| 0 <= j < m ==> #[trigger] f(j) == g(j),
    ensures
        rows(f, m) == rows(g, m),
    decreases m,
{
    if m > 0 {
        lemma_rows_agree(f, g, m - 1);
    }
}

// ---------------------------------------------------------------------------
// Custom edge lists
// ---------------------------------------------------------------------------

/// The `"listener<-source"` rendering of a repeated custom edge.
pub open spec fn edge_label(listener: Seq<char>, source: Seq<char>) -> Seq<char> {
    listener + seq!['<', '-'] + source
}

/// Validation of the first `m` custom edges against `ids`, in order: each
/// endpoint must be a known id (listener checked first), the endpoints
/// must differ, and no edge may repeat.
pub open spec fn custom_edges(ids: Seq<Seq<char>>, conns: Seq<EdgeView>, m: int) -> Result<Seq<IndexEdge>, TopologyFault>
    decreases m,
{
    if m <= 0 {
        Ok(Seq::empty())
    } else {
        match custom_edges(ids, conns, m - 1) {
            Err(e) => Err(e),
            Ok(prev) => {
                let c = conns[m - 1];
                match index_of(ids, c.0) {
                    None => Err(TopologyFault::UnknownNodeId(c.0)),
                    Some(li) => match index_of(ids, c.1) {
                        None => Err(TopologyFault::UnknownNodeId(c.1)),
                        Some(si) => if li == si {
                            Err(TopologyFault::SelfEdge(c.0))
                        } else if prev.contains((li, si)) {
                            Err(TopologyFault::DuplicateNodeId(edge_label(c.0, c.1)))
                        } else {
                            Ok(prev.push((li, si)))
                        },
                    },
                }
            },
        }
    }
}

/// A hit in a prefix is the first hit in the whole list.
pub proof fn lemma_index_of_extend(s: Seq<Seq<char>>, x: Seq<char>, j: int)
    requires
        0 <= j <= s.len(),
        index_of(s.take(j), x) is Some,
    ensures
        index_of(s, x) == index_of(s.take(j), x),
    decreases s.len() - j,
{
    if j < s.len() {
        assert(s.take(j + 1).drop_last() =~= s.take(j));
        assert(index_of(s.take(j + 1), x) == index_of(s.take(j), x));
        lemma_index_of_extend(s, x, j + 1);
    } else {
        assert(s.take(j) =~= s);
    }
}

/// What `index_of` returns is a position of `x`, and `None` means `x` is absent.
pub proof fn lemma_index_of_facts(s: Seq<Seq<char>>, x: Seq<char>)
    ensures
        index_of(s, x) matches Some(k) ==> 0 <= k < s.len() && s[k] == x,
        index_of(s, x) is None ==> forall|k: int| 0 <= k < s.len() ==> s[k] != x,
    decreases s.len(),
{
    if s.len() > 0 {
        lemma_index_of_facts(s.drop_last(), x);
        assert forall|k: int| 0 <= k < s.len() - 1 implies s.drop_last()[k] == s[k] by {}
    }
}

/// The first index of `x` in `ids`.
fn find_index(ids: &[String], x: &String) -> (r: Option<usize>)
    ensures
        match r {
            Some(k) => index_of(ids_view(ids@), x@) == Some(k as int),
            None => index_of(ids_view(ids@), x@) is None,
        },
{
    let ghost v = ids_view(ids@);
    let mut j: usize = 0;
    while j < ids.len()
        invariant
            0 <= j <= ids@.len(),
            v == ids_view(ids@),
            index_of(v.take(j as int), x@) is None,
        decreases ids@.len() - j,
    {
        assert(v.take(j + 1).drop_last() =~= v.take(j as int));
        if str_eq(ids[j].as_str(), x.as_str()) {
            proof {
                lemma_index_of_extend(v, x@, j + 1);
            }
            return Some(j);
        }
        j = j + 1;
    }
    assert(v.take(j as int) =~= v);
    None
}

/// Whether `(li, si)` already occurs in `out`.
fn contains_edge(out: &Vec<(usize, usize)>, li: usize, si: usize) -> (r: bool)
    ensures
        r == index_edges(out@).contains((li as int, si as int)),
{
    let mut k: usize = 0;
    while k < out.len()
        invariant
            0 <= k <= out@.len(),
            forall|j: int| 0 <= j < k ==> index_edges(out@)[j] != (li as int, si as int),
        decreases out@.len() - k,
    {
        if out[k].0 == li && out[k].1 == si {
            assert(index_edges(out@)[k as int] == (li as int, si as int));
            return true;
        }
        k = k + 1;
    }
    false
}

proof fn lemma_custom_edges_settled(ids: Seq<Seq<char>>, conns: Seq<EdgeView>, m: int, len: int)
    requires
        0 <= m <= len,
    ensures
        custom_edges(ids, conns, m) is Err ==> custom_edges(ids, conns, len) == custom_edges(ids, conns, m),
    decreases len - m,
{
    if m < len {
        lemma_custom_edges_settled(ids, conns, m + 1, len);
    }
}

fn custom_index_edges(ids: &[String], conns: &Vec<LateralConnection>) -> (r: Result<Vec<(usize, usize)>, TopologyError>)
    ensures
        match r {
            Ok(v) => custom_edges(ids_view(ids@), edges_view(conns@), conns@.len() as int) == Ok::<Seq<IndexEdge>, TopologyFault>(index_edges(v@)),
            Err(e) => custom_edges(ids_view(ids@), edges_view(conns@), conns@.len() as int) == Err::<Seq<IndexEdge>, TopologyFault>(e@),
        },
{
    let ghost iv = ids_view(ids@);
    let ghost cv = edges_view(conns@);
    let mut out: Vec<(usize, usize)> = Vec::new();
    assert(index_edges(out@) =~= Seq::<IndexEdge>::empty());
    let mut m: usize = 0;
    while m < conns.len()
        invariant
            0 <= m <= conns@.len(),
            iv == ids_view(ids@),
            cv == edges_view(conns@),
            custom_edges(iv, cv, m as int) == Ok::<Seq<IndexEdge>, TopologyFault>(index_edges(out@)),
        decreases conns@.len() - m,
    {
        let c = &conns[m];
        assert(cv[m as int] == c@);
        proof {
            lemma_custom_edges_settled(iv, cv, m + 1, conns@.len() as int);
        }
        let li = match find_index(ids, &c.listener_id) {
            Some(k) => k,
            None => {
                return Err(TopologyError::UnknownNodeId(copy_string(&c.listener_id)));
            },
        };
        let si = match find_index(ids, &c.source_id) {
            Some(k) => k,
            None => {
                return Err(TopologyError::UnknownNodeId(copy_string(&c.source_id)));
            },
        };
        if li == si {
            return Err(TopologyError::SelfEdge(copy_string(&c.listener_id)));
        }
        if contains_edge(&out, li, si) {
            let mut label = chars_of(c.listener_id.as_str());
            label.push('<');
            label.push('-');
            let src = chars_of(c.source_id.as_str());
            push_chars(&mut label, &src);
            proof {
                assert(label@ =~= edge_label(c.listener_id@, c.source_id@));
            }
            return Err(TopologyError::DuplicateNodeId(string_of(&label)));
        }
        let ghost prev = out@;
        out.push((li, si));
        assert(index_edges(out@) =~= index_edges(prev).push((li as int, si as int)));
        m = m + 1;
    }
    Ok(out)
}

// ---------------------------------------------------------------------------
// Materialization
// ---------------------------------------------------------------------------

/// Index edges mapped back to id texts.
pub open spec fn materialize(ids: Seq<Seq<char>>, e: Seq<IndexEdge>) -> Seq<EdgeView> {
    e.map_values(|x: IndexEdge| (ids[x.0], ids[x.1]))
}

/// The index edges a topology materializes to against `ids`, or the
/// error it reports. Id-list problems are reported first (empty, then the
/// first repeated id), then the variant's own parameter checks.
pub open spec fn topology_index_edges(t: TopologySpec, ids: Seq<Seq<char>>) -> Result<Seq<IndexEdge>, TopologyFault> {
    let n = ids.len() as int;
    if n == 0 {
        Err(TopologyFault::EmptyNodeSet)
    } else if first_duplicate(ids, n) is Some {
        Err(TopologyFault::DuplicateNodeId(ids[first_duplicate(ids, n)->0]))
    } else {
        match t {
            TopologySpec::Ring { bidirectional } => if n < 2 {
                Err(TopologyFault::TooFewNodes { topology: "ring"@, min: 2, n: n as nat })
            } else {
                Ok(ring_edges(n, bidirectional))
            },
            TopologySpec::Torus2d { width, height } => if width * height != n {
                Err(TopologyFault::TorusGeometry { width: width as nat, height: height as nat, n: n as nat })
            } else if width < 3 || height < 3 {
                Err(TopologyFault::TorusTooSmall { width: width as nat, height: height as nat })
            } else {
                Ok(torus_edges(width as int, height as int))
            },
            TopologySpec::FullyConnected => if n < 2 {
                Err(TopologyFault::TooFewNodes { topology: "fully_connected"@, min: 2, n: n as nat })
            } else {
                Ok(fully_connected_edges(n))
            },
            TopologySpec::SmallWorld { degree, rewire_threshold, seed } => if n < 2 {
                Err(TopologyFault::TooFewNodes { topology: "small_world"@, min: 2, n: n as nat })
            } else if degree == 0 || degree % 2 != 0 {
                Err(TopologyFault::OutOfRange { parameter: "degree"@, reason: "must be a positive even integer"@ })
            } else if degree >= n {
                Err(TopologyFault::OutOfRange { parameter: "degree"@, reason: "must be strictly less than the column count"@ })
            } else if rewire_threshold > REWIRE_ALWAYS {
                Err(TopologyFault::OutOfRange { parameter: "rewire_probability"@, reason: "must be a finite number in [0, 1]"@ })
            } else {
                Ok(small_world_edges(n, degree as int, rewire_threshold, seed))
            },
            TopologySpec::Custom(conns) => custom_edges(ids, edges_view(conns@), conns@.len() as int),
        }
    }
}

/// The connections a topology materializes to against `ids`, or the error
/// it reports.
pub open spec fn topology_connections(t: TopologySpec, ids: Seq<Seq<char>>) -> Result<Seq<EdgeView>, TopologyFault> {
    match topology_index_edges(t, ids) {
        Ok(e) => Ok(materialize(ids, e)),
        Err(f) => Err(f),
    }
}

fn materialize_edges(ids: &[String], edges: &Vec<(usize, usize)>) -> (out: Vec<LateralConnection>)
    requires
        forall|k: int| 0 <= k < edges@.len() ==> (#[trigger] edges@[k]).0 < ids@.len() && edges@[k].1 < ids@.len(),
    ensures
        edges_view(out@) == materialize(ids_view(ids@), index_edges(edges@)),
{
    let mut out: Vec<LateralConnection> = Vec::new();
    let mut k: usize = 0;
    while k < edges.len()
        invariant
            0 <= k <= edges@.len(),
            forall|k: int| 0 <= k < edges@.len() ==> (#[trigger] edges@[k]).0 < ids@.len() && edges@[k].1 < ids@.len(),
            edges_view(out@) == materialize(ids_view(ids@), index_edges(edges@).take(k as int)),
        decreases edges@.len() - k,
    {
        let (li, si) = edges[k];
        let c = LateralConnection {
            listener_id: copy_string(&ids[li]),
            source_id: copy_string(&ids[si]),
        };
        let ghost prev = out@;
        out.push(c);
        proof {
            assert(c@ == (ids_view(ids@)[li as int], ids_view(ids@)[si as int]));
            assert(edges_view(out@) =~= edges_view(prev).push(c@));
            assert(index_edges(edges@).take(k + 1) =~= index_edges(edges@).take(k as int).push((li as int, si as int)));
            assert(edges_view(out@) =~= materialize(ids_view(ids@), index_edges(edges@).take(k + 1)));
        }
        k = k + 1;
    }
    assert(index_edges(edges@).take(k as int) =~= index_edges(edges@));
    out
}

// ---------------------------------------------------------------------------
// Small-world source counts
// ---------------------------------------------------------------------------

/// The number of set flags.
pub open spec fn count_true(m: Seq<bool>) -> nat {
    count_kept(keep_fn(m), m.len() as int)
}

/// Forward ring distance from `i` to `s` (`(s - i) mod n`).
pub open spec fn ring_fwd(i: int, s: int, n: int) -> int {
    if s >= i { s - i } else { s + n - i }
}

/// Backward ring distance from `i` to `s` (`(i - s) mod n`).
pub open spec fn ring_bwd(i: int, s: int, n: int) -> int {
    if i >= s { i - s } else { i + n - s }
}

proof fn lemma_count_update_prefix(m: Seq<bool>, j: int, b: bool, p: int)
    requires
        0 <= j < m.len(),
        0 <= p <= m.len(),
    ensures
        p <= j ==> count_kept(keep_fn(m.update(j, b)), p) == count_kept(keep_fn(m), p),
        p > j ==> count_kept(keep_fn(m.update(j, b)), p) + (if m[j] { 1int } else { 0int })
            == count_kept(keep_fn(m), p) + (if b { 1int } else { 0int }),
    decreases p,
{
    if p > 0 {
        lemma_count_update_prefix(m, j, b, p - 1);
    }
}

pub proof fn lemma_count_update(m: Seq<bool>, j: int, b: bool)
    requires
        0 <= j < m.len(),
    ensures
        count_true(m.update(j, b)) + (if m[j] { 1int } else { 0int }) == count_true(m) + (if b {
            1int
        } else {
            0int
        }),
{
    lemma_count_update_prefix(m, j, b, m.len() as int);
}

pub proof fn lemma_count_all_true(m: Seq<bool>, p: int)
    requires
        0 <= p <= m.len(),
        forall|x: int| 0 <= x < p ==> m[x],
    ensures
        count_kept(keep_fn(m), p) == p,
    decreases p,
{
    if p > 0 {
        lemma_count_all_true(m, p - 1);
    }
}

pub proof fn lemma_count_all_false(n: int, p: int)
    requires
        0 <= p <= n,
    ensures
        count_kept(keep_fn(Seq::new(n as nat, |s: int| false)), p) == 0,
    decreases p,
{
    if p > 0 {
        lemma_count_all_false(n, p - 1);
    }
}

/// Column `i`'s lattice flags for the first `d` distances: exactly the
/// columns within ring distance `d`, `2d` of them, never `i` itself.
proof fn lemma_lattice_members(n: int, i: int, d: int)
    requires
        0 <= i < n,
        0 <= d,
        2 * d < n,
    ensures
        lattice_members(n, i, d).len() == n,
        forall|s: int|
            0 <= s < n ==> (#[trigger] lattice_members(n, i, d)[s] <==> (1 <= ring_fwd(i, s, n) <= d
                || 1 <= ring_bwd(i, s, n) <= d)),
        count_true(lattice_members(n, i, d)) == 2 * d,
    decreases d,
{
    lemma_lattice_members_len(n, i, d);
    if d == 0 {
        lemma_count_all_false(n, n);
    } else {
        lemma_lattice_members(n, i, d - 1);
        let m0 = lattice_members(n, i, d - 1);
        let p = plus_mod(i, d, n);
        let q = minus_mod(i, d, n);
        assert(ring_fwd(i, p, n) == d && ring_bwd(i, p, n) == n - d);
        assert(ring_bwd(i, q, n) == d && ring_fwd(i, q, n) == n - d);
        assert(!m0[p]);
        assert(!m0[q]);
        let m1 = m0.update(p, true);
        lemma_count_update(m0, p, true);
        assert(!m1[q]);
        lemma_count_update(m1, q, true);
        let m2 = m1.update(q, true);
        assert(m2 == lattice_members(n, i, d));
        assert forall|s: int| 0 <= s < n implies #[trigger] m2[s] <==> (1 <= ring_fwd(i, s, n) <= d
            || 1 <= ring_bwd(i, s, n) <= d) by {
            if s != p && s != q {
                assert(m2[s] == m0[s]);
                assert(ring_fwd(i, s, n) != d);
                assert(ring_bwd(i, s, n) != d);
            }
        }
    }
}

/// A rewiring step keeps the number of sources, never makes `i` its own
/// source, and keeps the flags' length.
proof fn lemma_rewire_step_keeps(state: u64, member: Seq<bool>, n: int, i: int, threshold: u64, k: int)
    requires
        0 <= i < n,
        0 <= k,
        k / 2 + 1 <= n,
        member.len() == n,
        !member[i],
    ensures
        rewire_step(state, member, n, i, threshold, k).1.len() == n,
        !rewire_step(state, member, n, i, threshold, k).1[i],
        count_true(rewire_step(state, member, n, i, threshold, k).1) == count_true(member),
{
    let s = lattice_neighbor(n, i, k);
    assert(0 <= s < n);
    if member[s] {
        let next = splitmix_advance(state);
        if (splitmix_mix(next) >> 11u64) < threshold {
            lemma_pick_in_range(next, n, i, member, rewire_attempts(n));
            let (after, chosen) = pick_new_source(next, n, i, member, rewire_attempts(n));
            match chosen {
                Some(t) => {
                    let m1 = member.update(s, false);
                    lemma_count_update(member, s, false);
                    assert(!m1[t]);
                    lemma_count_update(m1, t, true);
                },
                None => {},
            }
        }
    }
}

proof fn lemma_rewire_listener_keeps(state: u64, member: Seq<bool>, n: int, i: int, threshold: u64, k: int)
    requires
        0 <= i < n,
        0 <= k,
        k <= 2 * n,
        member.len() == n,
        !member[i],
    ensures
        rewire_listener(state, member, n, i, threshold, k).1.len() == n,
        !rewire_listener(state, member, n, i, threshold, k).1[i],
        count_true(rewire_listener(state, member, n, i, threshold, k).1) == count_true(member),
    decreases k,
{
    if k > 0 {
        lemma_rewire_listener_keeps(state, member, n, i, threshold, k - 1);
        let (st, m) = rewire_listener(state, member, n, i, threshold, k - 1);
        lemma_rewire_step_keeps(st, m, n, i, threshold, k - 1);
    }
}

/// Every small-world column keeps exactly `2 * half` sources, never itself.
proof fn lemma_small_world_members(seed: u64, n: int, half: int, threshold: u64, m: int)
    requires
        0 <= m <= n,
        0 <= half,
        2 * half < n,
    ensures
        small_world_members(seed, n, half, threshold, m).1.len() == m,
        forall|i: int|
            0 <= i < m ==> (#[trigger] small_world_members(seed, n, half, threshold, m).1[i]).len() == n
                && !small_world_members(seed, n, half, threshold, m).1[i][i] && count_true(
                small_world_members(seed, n, half, threshold, m).1[i],
            ) == 2 * half,
    decreases m,
{
    if m > 0 {
        lemma_small_world_members(seed, n, half, threshold, m - 1);
        let (st, ms) = small_world_members(seed, n, half, threshold, m - 1);
        lemma_lattice_members(n, m - 1, half);
        let lm = lattice_members(n, m - 1, half);
        assert(!lm[m - 1]);
        lemma_rewire_listener_keeps(st, lm, n, m - 1, threshold, 2 * half);
        let all = small_world_members(seed, n, half, threshold, m).1;
        assert forall|i: int| 0 <= i < m implies (#[trigger] all[i]).len() == n && !all[i][i]
            && count_true(all[i]) == 2 * half by {
            if i < m - 1 {
                assert(all[i] == ms[i]);
            }
        }
    }
}

proof fn lemma_small_world_well_formed(n: int, degree: int, threshold: u64, seed: u64)
    requires
        n >= 2,
        degree > 0,
        degree % 2 == 0,
        degree < n,
    ensures
        well_formed_edges(small_world_edges(n, degree, threshold, seed), n),
        forall|i: int|
            0 <= i < n ==> #[trigger] selected_row(
                i,
                n,
                keep_fn(small_world_members(seed, n, degree / 2, threshold, n).1[i]),
            ).len() == degree,
{
    let members = small_world_members(seed, n, degree / 2, threshold, n).1;
    lemma_small_world_members(seed, n, degree / 2, threshold, n);
    let f = |i: int| selected_row(i, n, keep_fn(members[i]));
    assert forall|i: int| 0 <= i < n implies listener_row(#[trigger] f(i), i, n) && f(i).len()
        == degree by {
        lemma_selected_row_listener(i, n, keep_fn(members[i]));
        assert(members[i].len() == n);
        assert(count_true(members[i]) == count_kept(keep_fn(members[i]), n));
        assert(count_true(members[i]) == 2 * (degree / 2));
    }
    lemma_rows_well_formed(f, n, n);
    assert forall|i: int| 0 <= i < n implies #[trigger] selected_row(i, n, keep_fn(members[i])).len()
        == degree by {
        assert(f(i).len() == degree);
    }
}

/// Edges over `n` columns: endpoints in range, no self-edges, no edge twice.
pub open spec fn simple_edges(e: Seq<IndexEdge>, n: int) -> bool {
    &&& forall|k: int| 0 <= k < e.len() ==> 0 <= (#[trigger] e[k]).0 < n && 0 <= e[k].1 < n
        && e[k].0 != e[k].1
    &&& no_repeated_edge(e)
}

proof fn lemma_custom_edges_simple(ids: Seq<Seq<char>>, conns: Seq<EdgeView>, m: int)
    requires
        custom_edges(ids, conns, m) is Ok,
    ensures
        simple_edges(custom_edges(ids, conns, m)->Ok_0, ids.len() as int),
    decreases m,
{
    if m > 0 {
        lemma_custom_edges_simple(ids, conns, m - 1);
        let prev = custom_edges(ids, conns, m - 1)->Ok_0;
        let c = conns[m - 1];
        lemma_index_of_facts(ids, c.0);
        lemma_index_of_facts(ids, c.1);
        let e = custom_edges(ids, conns, m)->Ok_0;
        let li = index_of(ids, c.0)->0;
        let si = index_of(ids, c.1)->0;
        assert(e == prev.push((li, si)));
        assert(!prev.contains((li, si)));
        assert forall|k: int, l: int| 0 <= k < l < e.len() implies #[trigger] e[k] != #[trigger] e[l] by {
            if l == e.len() - 1 {
                assert(e[l] == (li, si));
                assert(e[k] == prev[k]);
            } else {
                assert(e[k] == prev[k] && e[l] == prev[l]);
            }
        }
    }
}

proof fn lemma_well_formed_simple(e: Seq<IndexEdge>, n: int)
    requires
        well_formed_edges(e, n),
    ensures
        simple_edges(e, n),
{
    lemma_well_formed_no_repeat(e, n);
}

/// Whatever a topology materializes to has endpoints in range, no
/// self-edges and no repeated edge.
proof fn lemma_topology_simple(t: TopologySpec, ids: Seq<Seq<char>>)
    requires
        topology_index_edges(t, ids) is Ok,
    ensures
        simple_edges(topology_index_edges(t, ids)->Ok_0, ids.len() as int),
{
    let n = ids.len() as int;
    match t {
        TopologySpec::Ring { bidirectional } => {
            lemma_ring_well_formed(n, bidirectional);
            lemma_well_formed_simple(ring_edges(n, bidirectional), n);
        },
        TopologySpec::Torus2d { width, height } => {
            lemma_torus_well_formed(width as int, height as int);
            lemma_well_formed_simple(torus_edges(width as int, height as int), n);
        },
        TopologySpec::FullyConnected => {
            lemma_fully_connected_well_formed(n);
            lemma_well_formed_simple(fully_connected_edges(n), n);
        },
        TopologySpec::SmallWorld { degree, rewire_threshold, seed } => {
            lemma_small_world_well_formed(n, degree as int, rewire_threshold, seed);
            lemma_well_formed_simple(small_world_edges(n, degree as int, rewire_threshold, seed), n);
        },
        TopologySpec::Custom(conns) => {
            lemma_custom_edges_simple(ids, edges_view(conns@), conns@.len() as int);
        },
    }
}

impl TopologySpec {
    /// Materialize this topology against the ordered column-id list. Edges
    /// are returned as `listener -> source` pairs, in a deterministic order
    /// (positional for ring/torus/fully-connected, listener-major with
    /// ascending sources for small-world, given order for custom).
    pub fn connections_for(&self, ids: &[String]) -> (r: Result<Vec<LateralConnection>, TopologyError>)
        ensures
            match r {
                Ok(v) => topology_connections(*self, ids_view(ids@)) == Ok::<Seq<EdgeView>, TopologyFault>(edges_view(v@)),
                Err(e) => topology_connections(*self, ids_view(ids@)) == Err::<Seq<EdgeView>, TopologyFault>(e@),
            },
    {
        let ghost iv = ids_view(ids@);
        let n = ids.len();
        if n == 0 {
            return Err(TopologyError::EmptyNodeSet);
        }
        let mut i: usize = 0;
        while i < n
            invariant
                0 <= i <= n == ids@.len(),
                iv == ids_view(ids@),
                first_duplicate(iv, i as int) is None,
            decreases n - i,
        {
            let mut j: usize = 0;
            while j < i
                invariant
                    0 <= j <= i < n == ids@.len(),
                    iv == ids_view(ids@),
                    forall|t: int| 0 <= t < j ==> iv[t] != iv[i as int],
                    first_duplicate(iv, i as int) is None,
                decreases i - j,
            {
                if str_eq(ids[j].as_str(), ids[i].as_str()) {
                    proof {
                        assert(iv[j as int] == iv[i as int]);
                        assert(first_duplicate(iv, i + 1) == Some(i as int));
                        lemma_first_duplicate_extend(iv, i + 1, n as int);
                    }
                    return Err(TopologyError::DuplicateNodeId(copy_string(&ids[i])));
                }
                j = j + 1;
            }
            i = i + 1;
        }
        let edges: Vec<(usize, usize)> = match self {
            TopologySpec::Ring { bidirectional } => {
                if n < 2 {
                    return Err(TopologyError::TooFewNodes { topology: "ring", min: 2, n });
                }
                ring_index_edges(n, *bidirectional)
            },
            TopologySpec::Torus2d { width, height } => {
                let w = *width;
                let h = *height;
                let matches_n = match w.checked_mul(h) {
                    Some(p) => p == n,
                    None => false,
                };
                if !matches_n {
                    return Err(TopologyError::TorusGeometry { width: w, height: h, n });
                }
                if w < 3 || h < 3 {
                    return Err(TopologyError::TorusTooSmall { width: w, height: h });
                }
                torus_index_edges(n, w, h)
            },
            TopologySpec::FullyConnected => {
                if n < 2 {
                    return Err(TopologyError::TooFewNodes { topology: "fully_connected", min: 2, n });
                }
                fully_connected_index_edges(n)
            },
            TopologySpec::SmallWorld { degree, rewire_threshold, seed } => {
                if n < 2 {
                    return Err(TopologyError::TooFewNodes { topology: "small_world", min: 2, n });
                }
                if *degree == 0 || *degree % 2 != 0 {
                    return Err(TopologyError::OutOfRange {
                        parameter: "degree",
                        reason: "must be a positive even integer",
                    });
                }
                if *degree >= n {
                    return Err(TopologyError::OutOfRange {
                        parameter: "degree",
                        reason: "must be strictly less than the column count",
                    });
                }
                if *rewire_threshold > REWIRE_ALWAYS {
                    return Err(TopologyError::OutOfRange {
                        parameter: "rewire_probability",
                        reason: "must be a finite number in [0, 1]",
                    });
                }
                small_world_index_edges(n, *degree, *rewire_threshold, *seed)
            },
            TopologySpec::Custom(conns) => {
                match custom_index_edges(ids, conns) {
                    Ok(v) => v,
                    Err(e) => {
                        return Err(e);
                    },
                }
            },
        };
        proof {
            assert(topology_index_edges(*self, iv) == Ok::<Seq<IndexEdge>, TopologyFault>(index_edges(edges@)));
            lemma_topology_simple(*self, iv);
            assert forall|k: int| 0 <= k < edges@.len() implies (#[trigger] edges@[k]).0 < ids@.len()
                && edges@[k].1 < ids@.len() by {
                assert(index_edges(edges@)[k] == (edges@[k].0 as int, edges@[k].1 as int));
            }
        }
        Ok(materialize_edges(ids, &edges))
    }
}

// ---------------------------------------------------------------------------
// Laws
// ---------------------------------------------------------------------------

/// The number of index edges whose listener is `i`.
pub open spec fn index_out_degree(e: Seq<IndexEdge>, i: int) -> nat
    decreases e.len(),
{
    if e.len() == 0 {
        0
    } else {
        index_out_degree(e.drop_last(), i) + if e.last().0 == i { 1nat } else { 0nat }
    }
}

/// The number of connections whose listener is `x`.
pub open spec fn out_degree(e: Seq<EdgeView>, x: Seq<char>) -> nat
    decreases e.len(),
{
    if e.len() == 0 {
        0
    } else {
        out_degree(e.drop_last(), x) + if e.last().0 == x { 1nat } else { 0nat }
    }
}

proof fn lemma_index_out_degree_concat(a: Seq<IndexEdge>, b: Seq<IndexEdge>, i: int)
    ensures
        index_out_degree(a + b, i) == index_out_degree(a, i) + index_out_degree(b, i),
    decreases b.len(),
{
    if b.len() > 0 {
        assert((a + b).drop_last() =~= a + b.drop_last());
        lemma_index_out_degree_concat(a, b.drop_last(), i);
    } else {
        assert(a + b =~= a);
    }
}

proof fn lemma_index_out_degree_listener_row(row: Seq<IndexEdge>, j: int, i: int)
    requires
        forall|k: int| 0 <= k < row.len() ==> (#[trigger] row[k]).0 == j,
    ensures
        index_out_degree(row, i) == if i == j { row.len() } else { 0 },
    decreases row.len(),
{
    if row.len() > 0 {
        lemma_index_out_degree_listener_row(row.drop_last(), j, i);
    }
}

proof fn lemma_rows_out_degree(f: spec_fn(int) -> Seq<IndexEdge>, m: int, n: int, i: int)
    requires
        0 <= m,
        forall|j: int| 0 <= j < m ==> listener_row(#[trigger] f(j), j, n),
    ensures
        index_out_degree(rows(f, m), i) == if 0 <= i < m { f(i).len() } else { 0 },
    decreases m,
{
    if m > 0 {
        lemma_rows_out_degree(f, m - 1, n, i);
        assert(listener_row(f(m - 1), m - 1, n));
        lemma_index_out_degree_concat(rows(f, m - 1), f(m - 1), i);
        lemma_index_out_degree_listener_row(f(m - 1), m - 1, i);
    }
}

proof fn lemma_materialize_out_degree(ids: Seq<Seq<char>>, e: Seq<IndexEdge>, i: int)
    requires
        distinct_ids(ids),
        0 <= i < ids.len(),
        forall|k: int| 0 <= k < e.len() ==> 0 <= (#[trigger] e[k]).0 < ids.len(),
    ensures
        out_degree(materialize(ids, e), ids[i]) == index_out_degree(e, i),
    decreases e.len(),
{
    if e.len() > 0 {
        assert(materialize(ids, e).drop_last() =~= materialize(ids, e.drop_last()));
        lemma_materialize_out_degree(ids, e.drop_last(), i);
        let l = e.last().0;
        assert(materialize(ids, e).last() == (ids[l], ids[e.last().1]));
        if l != i {
            if l < i {
                assert(ids[l] != ids[i]);
            } else {
                assert(ids[i] != ids[l]);
            }
        }
    }
}

/// An id list without a first repeat has no repeat at all.
pub proof fn lemma_distinct_ids(ids: Seq<Seq<char>>)
    requires
        first_duplicate(ids, ids.len() as int) is None,
    ensures
        distinct_ids(ids),
{
    lemma_first_duplicate_none(ids, ids.len() as int);
}

/// Every materialized topology is a simple directed graph over the ids: no
/// column listens to itself, no edge occurs twice, and both endpoints of
/// every edge are ids of the list.
pub proof fn law_connections_are_simple(t: TopologySpec, ids: Seq<Seq<char>>)
    requires
        topology_connections(t, ids) is Ok,
    ensures
        ({
            let out = topology_connections(t, ids)->Ok_0;
            &&& forall|k: int| 0 <= k < out.len() ==> (#[trigger] out[k]).0 != out[k].1
            &&& forall|k: int| 0 <= k < out.len() ==> ids.contains((#[trigger] out[k]).0) && ids.contains(out[k].1)
            &&& forall|k: int, l: int| 0 <= k < l < out.len() ==> #[trigger] out[k] != #[trigger] out[l]
        }),
{
    let e = topology_index_edges(t, ids)->Ok_0;
    lemma_topology_simple(t, ids);
    lemma_distinct_ids(ids);
    let out = materialize(ids, e);
    assert forall|k: int| 0 <= k < out.len() implies (#[trigger] out[k]).0 != out[k].1 && ids.contains(
        out[k].0,
    ) && ids.contains(out[k].1) by {
        let (a, b) = e[k];
        assert(out[k] == (ids[a], ids[b]));
        if a < b {
            assert(ids[a] != ids[b]);
        } else {
            assert(ids[b] != ids[a]);
        }
    }
    assert forall|k: int, l: int| 0 <= k < l < out.len() implies #[trigger] out[k] != #[trigger] out[l] by {
        assert(e[k] != e[l]);
        let (a, b) = e[k];
        let (c, d) = e[l];
        if a != c {
            if a < c { assert(ids[a] != ids[c]); } else { assert(ids[c] != ids[a]); }
        } else {
            if b < d { assert(ids[b] != ids[d]); } else { assert(ids[d] != ids[b]); }
        }
    }
}

/// In a ring every column listens to exactly one source, or two when the
/// ring is bidirectional over at least three columns.
pub proof fn law_ring_out_degree(bidirectional: bool, ids: Seq<Seq<char>>, i: int)
    requires
        topology_connections(TopologySpec::Ring { bidirectional }, ids) is Ok,
        0 <= i < ids.len(),
    ensures
        out_degree(topology_connections(TopologySpec::Ring { bidirectional }, ids)->Ok_0, ids[i])
            == if bidirectional && ids.len() >= 3 { 2nat } else { 1nat },
{
    let n = ids.len() as int;
    lemma_distinct_ids(ids);
    let e = ring_edges(n, bidirectional);
    lemma_ring_well_formed(n, bidirectional);
    lemma_materialize_out_degree(ids, e, i);
    if n == 2 && bidirectional {
        assert(e.drop_last().drop_last() =~= Seq::<IndexEdge>::empty());
        assert(e.drop_last() =~= seq![(0int, 1int)]);
        assert(index_out_degree(e.drop_last().drop_last(), i) == 0);
        assert(index_out_degree(e.drop_last(), i) == if i == 0 { 1nat } else { 0nat });
    } else {
        let f = |j: int| ring_row(n, bidirectional, j);
        assert forall|j: int| 0 <= j < n implies listener_row(#[trigger] f(j), j, n) by {
            assert(f(j) == ring_row(n, bidirectional, j));
        }
        lemma_rows_out_degree(f, n, n, i);
        assert(f(i).len() == if bidirectional { 2nat } else { 1nat });
    }
}

/// In a torus every column listens to exactly four sources.
pub proof fn law_torus_out_degree(width: usize, height: usize, ids: Seq<Seq<char>>, i: int)
    requires
        topology_connections(TopologySpec::Torus2d { width, height }, ids) is Ok,
        0 <= i < ids.len(),
    ensures
        out_degree(topology_connections(TopologySpec::Torus2d { width, height }, ids)->Ok_0, ids[i])
            == 4,
{
    let (w, h) = (width as int, height as int);
    lemma_distinct_ids(ids);
    lemma_torus_well_formed(w, h);
    lemma_materialize_out_degree(ids, torus_edges(w, h), i);
    let f = |k: int| torus_cell(w, h, k);
    assert forall|k: int| 0 <= k < w * h implies listener_row(#[trigger] f(k), k, w * h) by {
        lemma_torus_cell_row(w, h, k);
    }
    lemma_rows_out_degree(f, w * h, w * h, i);
}

proof fn lemma_count_fc_keep(n: int, i: int, p: int)
    requires
        0 <= i < n,
        0 <= p <= n,
    ensures
        count_kept(fc_keep(n, i), p) == if i < p { p - 1 } else { p },
    decreases p,
{
    if p > 0 {
        lemma_count_fc_keep(n, i, p - 1);
    }
}

proof fn lemma_selected_row_contains(i: int, m: int, keep: spec_fn(int) -> bool, j: int)
    requires
        0 <= j < m,
        keep(j),
    ensures
        rows(keep_piece(i, keep), m).contains((i, j)),
    decreases m,
{
    let a = rows(keep_piece(i, keep), m - 1);
    let b = keep_piece(i, keep)(m - 1);
    if j == m - 1 {
        assert((a + b)[a.len() as int] == (i, j));
    } else {
        lemma_selected_row_contains(i, m - 1, keep, j);
        let k = choose|k: int| 0 <= k < a.len() && a[k] == (i, j);
        assert((a + b)[k] == (i, j));
    }
}

proof fn lemma_rows_contains(f: spec_fn(int) -> Seq<IndexEdge>, m: int, i: int, x: IndexEdge)
    requires
        0 <= i < m,
        f(i).contains(x),
    ensures
        rows(f, m).contains(x),
    decreases m,
{
    let a = rows(f, m - 1);
    let b = f(m - 1);
    if i == m - 1 {
        let k = choose|k: int| 0 <= k < b.len() && b[k] == x;
        assert((a + b)[a.len() + k] == x);
    } else {
        lemma_rows_contains(f, m - 1, i, x);
        let k = choose|k: int| 0 <= k < a.len() && a[k] == x;
        assert((a + b)[k] == x);
    }
}

proof fn lemma_mod_once(x: int, m: int)
    requires
        m > 0,
        0 <= x < 2 * m,
    ensures
        x % m == if x < m { x } else { x - m },
{
    if x < m {
        vstd::arithmetic::div_mod::lemma_fundamental_div_mod_converse(x, m, 0, x);
    } else {
        vstd::arithmetic::div_mod::lemma_fundamental_div_mod_converse(x, m, 1, x - m);
    }
}

/// In a `width x height` row-major torus, the column at row `r`, column
/// `c` listens to its four wraparound neighbors: right `(r, (c + 1) mod
/// width)` and left `(r, (c - 1) mod width)` in its own row, down `((r + 1)
/// mod height, c)` and up `((r - 1) mod height, c)` in its own column.
/// (With the out-degree law these four are all its sources.)
pub proof fn law_torus_neighbors(width: usize, height: usize, ids: Seq<Seq<char>>, r: int, c: int)
    requires
        topology_index_edges(TopologySpec::Torus2d { width, height }, ids) is Ok,
        0 <= r < height,
        0 <= c < width,
    ensures
        ({
            let w = width as int;
            let h = height as int;
            let e = topology_index_edges(TopologySpec::Torus2d { width, height }, ids)->Ok_0;
            let k = r * w + c;
            &&& e.contains((k, r * w + (c + 1) % w))
            &&& e.contains((k, r * w + (c + w - 1) % w))
            &&& e.contains((k, ((r + 1) % h) * w + c))
            &&& e.contains((k, ((r + h - 1) % h) * w + c))
        }),
{
    let w = width as int;
    let h = height as int;
    let n = w * h;
    lemma_torus_position(w, h, r, c);
    let k = r * w + c;
    assert(k / w == r && k % w == c);
    lemma_mod_once(c + 1, w);
    lemma_mod_once(c + w - 1, w);
    lemma_mod_once(r + 1, h);
    lemma_mod_once(r + h - 1, h);
    let up = if r > 0 { k - w } else { k + n - w };
    let down = if r < h - 1 { k + w } else { k + w - n };
    let left = if c > 0 { k - 1 } else { k + w - 1 };
    let right = if c < w - 1 { k + 1 } else { k + 1 - w };
    let cell = torus_cell(w, h, k);
    assert(cell =~= seq![(k, up), (k, down), (k, left), (k, right)]);
    assert(right == r * w + (c + 1) % w);
    assert(left == r * w + (c + w - 1) % w);
    assert(down == ((r + 1) % h) * w + c) by {
        if r == h - 1 {
            assert((h - 1) * w == w * h - w) by (nonlinear_arith);
            assert((r + 1) % h == 0);
            assert(0 * w == 0);
        } else {
            assert((r + 1) % h == r + 1);
            assert((r + 1) * w == r * w + w) by (nonlinear_arith);
        }
    }
    assert(up == ((r + h - 1) % h) * w + c) by {
        if r > 0 {
            assert((r - 1) * w == r * w - w) by (nonlinear_arith);
        } else {
            assert((h - 1) * w == w * h - w) by (nonlinear_arith);
        }
    }
    let f = |j: int| torus_cell(w, h, j);
    assert(f(k) == cell);
    assert(cell[0] == (k, up) && cell[1] == (k, down) && cell[2] == (k, left) && cell[3] == (k, right));
    lemma_rows_contains(f, n, k, (k, up));
    lemma_rows_contains(f, n, k, (k, down));
    lemma_rows_contains(f, n, k, (k, left));
    lemma_rows_contains(f, n, k, (k, right));
    assert(torus_edges(w, h) == rows(f, n));
}

proof fn lemma_no_rewire(state: u64, member: Seq<bool>, n: int, i: int, k: int)
    ensures
        rewire_listener(state, member, n, i, 0, k).1 == member,
    decreases k,
{
    if k > 0 {
        lemma_no_rewire(state, member, n, i, k - 1);
        let (st, m) = rewire_listener(state, member, n, i, 0, k - 1);
        let s = lattice_neighbor(n, i, k - 1);
        if m[s] {
            let next = splitmix_advance(st);
            assert(!((splitmix_mix(next) >> 11u64) < 0u64));
        }
    }
}

proof fn lemma_members_lattice(seed: u64, n: int, half: int, m: int)
    requires
        0 <= m,
    ensures
        small_world_members(seed, n, half, 0, m).1.len() == m,
        forall|i: int| 0 <= i < m ==> #[trigger] small_world_members(seed, n, half, 0, m).1[i] == lattice_members(n, i, half),
    decreases m,
{
    if m > 0 {
        lemma_members_lattice(seed, n, half, m - 1);
        let (st, ms) = small_world_members(seed, n, half, 0, m - 1);
        lemma_no_rewire(st, lattice_members(n, m - 1, half), n, m - 1, 2 * half);
        let all = small_world_members(seed, n, half, 0, m).1;
        assert forall|i: int| 0 <= i < m implies #[trigger] all[i] == lattice_members(n, i, half) by {
            if i < m - 1 {
                assert(all[i] == ms[i]);
            }
        }
    }
}

proof fn lemma_rows_member(f: spec_fn(int) -> Seq<IndexEdge>, m: int, x: IndexEdge)
    requires
        rows(f, m).contains(x),
    ensures
        exists|k: int| 0 <= k < m && #[trigger] f(k).contains(x),
    decreases m,
{
    if m > 0 {
        let a = rows(f, m - 1);
        let b = f(m - 1);
        assert(rows(f, m) == a + b);
        let idx = choose|idx: int| 0 <= idx < (a + b).len() && (a + b)[idx] == x;
        if idx < a.len() {
            assert(a[idx] == x);
            lemma_rows_member(f, m - 1, x);
        } else {
            assert(b[idx - a.len()] == x);
            assert(f(m - 1).contains(x));
        }
    }
}

/// With rewire probability 0 a small-world topology is the plain ring
/// lattice: column `i` listens to `j` exactly when `j` lies within
/// `degree / 2` steps of `i` around the ring, in either direction.
pub proof fn law_small_world_without_rewiring(degree: usize, seed: u64, ids: Seq<Seq<char>>, i: int, j: int)
    requires
        topology_index_edges(TopologySpec::SmallWorld { degree, rewire_threshold: 0, seed }, ids) is Ok,
        0 <= i < ids.len(),
        0 <= j < ids.len(),
    ensures
        ({
            let n = ids.len() as int;
            let half = degree as int / 2;
            topology_index_edges(TopologySpec::SmallWorld { degree, rewire_threshold: 0, seed }, ids)->Ok_0.contains(
                (i, j),
            ) <==> (1 <= (j - i + n) % n <= half || 1 <= (i - j + n) % n <= half)
        }),
{
    let n = ids.len() as int;
    let d = degree as int;
    let half = d / 2;
    let e = topology_index_edges(TopologySpec::SmallWorld { degree, rewire_threshold: 0, seed }, ids)->Ok_0;
    assert(n >= 2 && d > 0 && d % 2 == 0 && d < n);
    assert(e == small_world_edges(n, d, 0, seed));
    let members = small_world_members(seed, n, half, 0, n).1;
    lemma_members_lattice(seed, n, half, n);
    assert(members[i] == lattice_members(n, i, half));
    lemma_lattice_members(n, i, half);
    lemma_mod_once(j - i + n, n);
    lemma_mod_once(i - j + n, n);
    assert(ring_fwd(i, j, n) == (j - i + n) % n);
    assert(ring_bwd(i, j, n) == (i - j + n) % n);
    let f = |k: int| selected_row(k, n, keep_fn(members[k]));
    assert(e == rows(f, n));
    if members[i][j] {
        lemma_selected_row_contains(i, n, keep_fn(members[i]), j);
        assert(f(i).contains((i, j)));
        lemma_rows_contains(f, n, i, (i, j));
    }
    if e.contains((i, j)) {
        lemma_rows_member(f, n, (i, j));
        let k = choose|k: int| 0 <= k < n && #[trigger] f(k).contains((i, j));
        lemma_selected_row(k, n, keep_fn(members[k]));
        let row = rows(keep_piece(k, keep_fn(members[k])), n);
        assert(f(k) == row);
        let idx = choose|idx: int| 0 <= idx < row.len() && row[idx] == (i, j);
        assert(row[idx].0 == k && keep_fn(members[k])(row[idx].1));
        assert(members[i][j]);
    }
}

/// In a ring column `i` listens to its predecessor `(i - 1) mod n`, and,
/// when the ring is bidirectional, also to its successor `(i + 1) mod n`.
pub proof fn law_ring_neighbors(bidirectional: bool, ids: Seq<Seq<char>>, i: int)
    requires
        topology_index_edges(TopologySpec::Ring { bidirectional }, ids) is Ok,
        0 <= i < ids.len(),
    ensures
        ({
            let n = ids.len() as int;
            let e = topology_index_edges(TopologySpec::Ring { bidirectional }, ids)->Ok_0;
            &&& e.contains((i, (i + n - 1) % n))
            &&& bidirectional ==> e.contains((i, (i + 1) % n))
        }),
{
    let n = ids.len() as int;
    let e = topology_index_edges(TopologySpec::Ring { bidirectional }, ids)->Ok_0;
    assert(n >= 2);
    assert(e == ring_edges(n, bidirectional));
    lemma_mod_once(i + n - 1, n);
    lemma_mod_once(i + 1, n);
    let pred = (i + n - 1) % n;
    let succ = (i + 1) % n;
    assert(pred == minus_mod(i, 1, n));
    assert(succ == plus_mod(i, 1, n));
    if n == 2 && bidirectional {
        let pairs = seq![(0int, 1int), (1int, 0int)];
        assert(e == pairs);
        if i == 0 {
            assert(pairs[0] == (i, pred));
        } else {
            assert(pairs[1] == (i, pred));
        }
    } else {
        let f = |k: int| ring_row(n, bidirectional, k);
        assert(e == rows(f, n));
        assert(f(i)[0] == (i, pred));
        lemma_rows_contains(f, n, i, (i, pred));
        if bidirectional {
            assert(f(i)[1] == (i, succ));
            lemma_rows_contains(f, n, i, (i, succ));
        }
    }
}

/// A fully connected topology links every ordered pair of distinct
/// columns, so every column listens to all `n - 1` others.
pub proof fn law_fully_connected_complete(ids: Seq<Seq<char>>, i: int, j: int)
    requires
        topology_connections(TopologySpec::FullyConnected, ids) is Ok,
        0 <= i < ids.len(),
        0 <= j < ids.len(),
        i != j,
    ensures
        topology_connections(TopologySpec::FullyConnected, ids)->Ok_0.contains((ids[i], ids[j])),
        out_degree(topology_connections(TopologySpec::FullyConnected, ids)->Ok_0, ids[i]) == ids.len() - 1,
{
    let n = ids.len() as int;
    lemma_distinct_ids(ids);
    let f = |k: int| selected_row(k, n, fc_keep(n, k));
    lemma_selected_row_contains(i, n, fc_keep(n, i), j);
    assert(f(i) == selected_row(i, n, fc_keep(n, i)));
    lemma_rows_contains(f, n, i, (i, j));
    let e = fully_connected_edges(n);
    let k = choose|k: int| 0 <= k < e.len() && e[k] == (i, j);
    assert(materialize(ids, e)[k] == (ids[i], ids[j]));
    lemma_fully_connected_well_formed(n);
    lemma_materialize_out_degree(ids, e, i);
    assert forall|m: int| 0 <= m < n implies listener_row(#[trigger] f(m), m, n) by {
        lemma_selected_row_listener(m, n, fc_keep(n, m));
    }
    lemma_rows_out_degree(f, n, n, i);
    lemma_selected_row_listener(i, n, fc_keep(n, i));
    lemma_count_fc_keep(n, i, n);
}

/// In a small-world topology every column keeps exactly `degree` sources:
/// rewiring moves edges but never adds or removes one.
pub proof fn law_small_world_out_degree(degree: usize, rewire_threshold: u64, seed: u64, ids: Seq<Seq<char>>, i: int)
    requires
        topology_connections(TopologySpec::SmallWorld { degree, rewire_threshold, seed }, ids) is Ok,
        0 <= i < ids.len(),
    ensures
        out_degree(
            topology_connections(TopologySpec::SmallWorld { degree, rewire_threshold, seed }, ids)->Ok_0,
            ids[i],
        ) == degree,
{
    let n = ids.len() as int;
    let d = degree as int;
    lemma_distinct_ids(ids);
    lemma_small_world_well_formed(n, d, rewire_threshold, seed);
    lemma_materialize_out_degree(ids, small_world_edges(n, d, rewire_threshold, seed), i);
    let members = small_world_members(seed, n, d / 2, rewire_threshold, n).1;
    lemma_small_world_members(seed, n, d / 2, rewire_threshold, n);
    let f = |k: int| selected_row(k, n, keep_fn(members[k]));
    assert forall|k: int| 0 <= k < n implies listener_row(#[trigger] f(k), k, n) by {
        lemma_selected_row_listener(k, n, keep_fn(members[k]));
    }
    lemma_rows_out_degree(f, n, n, i);
    assert(f(i).len() == degree);
}

/// Index edges in ascending (listener, source) order, so no edge occurs
/// twice.
pub open spec fn edges_ascending(e: Seq<IndexEdge>) -> bool {
    forall|a: int, b: int|
        0 <= a < b < e.len() ==> (#[trigger] e[a]).0 < (#[trigger] e[b]).0 || (e[a].0 == e[b].0 && e[a].1 < e[b].1)
}

proof fn lemma_rows_ascending(f: spec_fn(int) -> Seq<IndexEdge>, m: int)
    requires
        forall|i: int| 0 <= i < m ==> edges_ascending(#[trigger] f(i)),
        forall|i: int, k: int| 0 <= i < m && 0 <= k < f(i).len() ==> (#[trigger] f(i)[k]).0 == i,
    ensures
        edges_ascending(rows(f, m)),
        forall|k: int| 0 <= k < rows(f, m).len() ==> 0 <= (#[trigger] rows(f, m)[k]).0 < m,
    decreases m,
{
    if m > 0 {
        lemma_rows_ascending(f, m - 1);
        let a = rows(f, m - 1);
        let b = f(m - 1);
        let e = a + b;
        assert(rows(f, m) == e);
        assert forall|k: int| 0 <= k < e.len() implies 0 <= (#[trigger] e[k]).0 < m by {
            if k < a.len() {
                assert(e[k] == a[k]);
            } else {
                assert(e[k] == b[k - a.len()]);
            }
        }
        assert forall|x: int, y: int| 0 <= x < y < e.len() implies (#[trigger] e[x]).0 < (#[trigger] e[y]).0 || (
        e[x].0 == e[y].0 && e[x].1 < e[y].1) by {
            if y < a.len() {
                assert(e[x] == a[x] && e[y] == a[y]);
            } else if x >= a.len() {
                assert(e[x] == b[x - a.len()] && e[y] == b[y - a.len()]);
            } else {
                assert(e[x] == a[x]);
                assert(e[y] == b[y - a.len()]);
            }
        }
    }
}

/// A small-world topology lists its edges by listener position and, for
/// each listener, its sources by ascending position; so the same arguments
/// give the same list, edge for edge and in the same order.
pub proof fn law_small_world_edge_order(degree: usize, rewire_threshold: u64, seed: u64, ids: Seq<Seq<char>>)
    requires
        topology_connections(TopologySpec::SmallWorld { degree, rewire_threshold, seed }, ids) is Ok,
    ensures
        topology_index_edges(TopologySpec::SmallWorld { degree, rewire_threshold, seed }, ids) matches Ok(e)
            && topology_connections(TopologySpec::SmallWorld { degree, rewire_threshold, seed }, ids)
            == Ok::<Seq<EdgeView>, TopologyFault>(materialize(ids, e)) && edges_ascending(e),
{
    let n = ids.len() as int;
    let d = degree as int;
    let members = small_world_members(seed, n, d / 2, rewire_threshold, n).1;
    let f = |k: int| selected_row(k, n, keep_fn(members[k]));
    assert forall|k: int| 0 <= k < n implies edges_ascending(#[trigger] f(k)) by {
        lemma_selected_row(k, n, keep_fn(members[k]));
    }
    assert forall|k: int, j: int| 0 <= k < n && 0 <= j < f(k).len() implies (#[trigger] f(k)[j]).0 == k by {
        lemma_selected_row(k, n, keep_fn(members[k]));
    }
    lemma_rows_ascending(f, n);
    assert(small_world_edges(n, d, rewire_threshold, seed) == rows(f, n));
}

proof fn lemma_count_two_false(m: Seq<bool>, i: int, s: int, p: int)
    requires
        0 <= p <= m.len(),
        0 <= i < m.len(),
        0 <= s < m.len(),
        i != s,
        !m[i],
        !m[s],
    ensures
        count_kept(keep_fn(m), p) + (if i < p { 1int } else { 0int }) + (if s < p { 1int } else { 0int }) <= p,
    decreases p,
{
    if p > 0 {
        lemma_count_two_false(m, i, s, p - 1);
    }
}

/// The documented degeneracy: a small-world topology whose degree is
/// `n - 1` (possible for odd `n`) has no free source to rewire to, so it is
/// exactly the fully connected topology, whatever the threshold and seed.
pub proof fn law_small_world_degenerates_to_complete(degree: usize, rewire_threshold: u64, seed: u64, ids: Seq<Seq<char>>)
    requires
        topology_connections(TopologySpec::SmallWorld { degree, rewire_threshold, seed }, ids) is Ok,
        degree == ids.len() - 1,
    ensures
        topology_connections(TopologySpec::SmallWorld { degree, rewire_threshold, seed }, ids)
            == topology_connections(TopologySpec::FullyConnected, ids),
{
    let n = ids.len() as int;
    let d = degree as int;
    let members = small_world_members(seed, n, d / 2, rewire_threshold, n).1;
    lemma_small_world_members(seed, n, d / 2, rewire_threshold, n);
    let f = |k: int| selected_row(k, n, keep_fn(members[k]));
    let g = |k: int| selected_row(k, n, fc_keep(n, k));
    assert forall|k: int| 0 <= k < n implies #[trigger] f(k) == g(k) by {
        let m = members[k];
        assert forall|s: int| 0 <= s < n && s != k implies m[s] by {
            if !m[s] {
                lemma_count_two_false(m, k, s, n);
            }
        }
        assert(keep_fn(m) =~= fc_keep(n, k));
    }
    lemma_rows_agree(f, g, n);
}

// ---------------------------------------------------------------------------
// Error messages
// ---------------------------------------------------------------------------

/// The human-readable message of a topology fault.
pub open spec fn fault_message(f: TopologyFault) -> Seq<char> {
    match f {
        TopologyFault::EmptyNodeSet => "topology requires a non-empty column id list"@,
        TopologyFault::DuplicateNodeId(s) => "duplicate column id in id list: "@ + s,
        TopologyFault::UnknownNodeId(s) => "connection references unknown column id: "@ + s,
        TopologyFault::SelfEdge(s) => "self-edge forbidden (column listens to itself): "@ + s,
        TopologyFault::DuplicateEdge { listener, from } => "duplicate edge from generator: "@
            + listener + " <- "@ + from,
        TopologyFault::TorusGeometry { width, height, n } => "torus geometry mismatch: "@ + decimal(
            width,
        ) + "x"@ + decimal(height) + " != "@ + decimal(n) + " columns"@,
        TopologyFault::TorusTooSmall { width, height } => "torus requires width >= 3 and height >= 3 (got "@
            + decimal(width) + "x"@ + decimal(height) + ")"@,
        TopologyFault::OutOfRange { parameter, reason } => parameter + " out of range: "@ + reason,
        TopologyFault::TooFewNodes { topology, min, n } => topology + " requires at least "@
            + decimal(min) + " columns (got "@ + decimal(n) + ")"@,
    }
}

impl TopologyError {
    /// The human-readable message of this error.
    pub fn message(&self) -> (m: String)
        ensures
            m@ == fault_message(self@),
    {
        let mut v: Vec<char> = Vec::new();
        match self {
            TopologyError::EmptyNodeSet => {
                push_str(&mut v, "topology requires a non-empty column id list");
            },
            TopologyError::DuplicateNodeId(s) => {
                push_str(&mut v, "duplicate column id in id list: ");
                push_str(&mut v, s.as_str());
            },
            TopologyError::UnknownNodeId(s) => {
                push_str(&mut v, "connection references unknown column id: ");
                push_str(&mut v, s.as_str());
            },
            TopologyError::SelfEdge(s) => {
                push_str(&mut v, "self-edge forbidden (column listens to itself): ");
                push_str(&mut v, s.as_str());
            },
            TopologyError::DuplicateEdge { listener, from } => {
                push_str(&mut v, "duplicate edge from generator: ");
                push_str(&mut v, listener.as_str());
                push_str(&mut v, " <- ");
                push_str(&mut v, from.as_str());
            },
            TopologyError::TorusGeometry { width, height, n } => {
                push_str(&mut v, "torus geometry mismatch: ");
                push_decimal(&mut v, *width as u64);
                push_str(&mut v, "x");
                push_decimal(&mut v, *height as u64);
                push_str(&mut v, " != ");
                push_decimal(&mut v, *n as u64);
                push_str(&mut v, " columns");
            },
            TopologyError::TorusTooSmall { width, height } => {
                push_str(&mut v, "torus requires width >= 3 and height >= 3 (got ");
                push_decimal(&mut v, *width as u64);
                push_str(&mut v, "x");
                push_decimal(&mut v, *height as u64);
                push_str(&mut v, ")");
            },
            TopologyError::OutOfRange { parameter, reason } => {
                push_str(&mut v, parameter);
                push_str(&mut v, " out of range: ");
                push_str(&mut v, reason);
            },
            TopologyError::TooFewNodes { topology, min, n } => {
                push_str(&mut v, topology);
                push_str(&mut v, " requires at least ");
                push_decimal(&mut v, *min as u64);
                push_str(&mut v, " columns (got ");
                push_decimal(&mut v, *n as u64);
                push_str(&mut v, ")");
            },
        }
        proof {
            assert(v@ =~= fault_message(self@));
        }
        string_of(&v)
    }
}

} // verus!
