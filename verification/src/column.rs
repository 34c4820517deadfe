//! Core column types: identifiers, domain spheres, the cortical column
//! state, and the named four-column reference population.
use vstd::prelude::*;

use crate::text::{copy_string, decimal, decimal_padded, own_str, push_decimal, push_decimal_padded, push_str, string_of};

verus! {

/// Identifier for a single virtual cortical column within the mesh.
#[derive(Debug, Clone, Copy, PartialEq, Eq, Hash)]
pub struct ColumnId(pub u64);

impl ColumnId {
    /// Create a new column identifier.
    pub fn new(value: u64) -> (id: Self)
        ensures
            id.0 == value,
    {
        ColumnId(value)
    }

    /// The stable display form `col-<n>`.
    pub fn to_string(&self) -> (s: String)
        ensures
            s@ == "col-"@ + decimal(self.0 as nat),
    {
        let mut v: Vec<char> = Vec::new();
        push_str(&mut v, "col-");
        push_decimal(&mut v, self.0);
        string_of(&v)
    }
}

/// The sensory / cognitive modality a column is specialized for.
#[derive(Debug, Clone, Copy, PartialEq, Eq, Hash)]
pub enum Modality {
    /// Visual scene analysis.
    Visual,
    /// Tactile / somatosensory signals.
    Tactile,
    /// Auditory signals.
    Auditory,
    /// Abstract symbolic reasoning (e.g. mathematics, logic).
    Abstract,
    /// Proprioceptive / positional signals.
    Proprioceptive,
}

/// The domain sphere a column reasons in; it selects the column's output
/// validation envelope.
#[derive(Debug, Clone, Copy, PartialEq, Eq, Hash)]
pub enum DomainSphere {
    Physics,
    Mathematics,
    Coding,
    Psychology,
}

/// The name of a sphere.
pub open spec fn sphere_name(s: DomainSphere) -> Seq<char> {
    match s {
        DomainSphere::Physics => "Physics"@,
        DomainSphere::Mathematics => "Mathematics"@,
        DomainSphere::Coding => "Coding"@,
        DomainSphere::Psychology => "Psychology"@,
    }
}

impl DomainSphere {
    /// The sphere's name.
    pub fn as_str(&self) -> (s: &'static str)
        ensures
            s@ == sphere_name(*self),
    {
        match self {
            DomainSphere::Physics => "Physics",
            DomainSphere::Mathematics => "Mathematics",
            DomainSphere::Coding => "Coding",
            DomainSphere::Psychology => "Psychology",
        }
    }
}

/// A self-reported confidence, carried by its order key: the IEEE-754
/// single-precision bits with the sign bit set for non-negative values and
/// every bit inverted for negative ones. Integer order on keys is exactly
/// `f32::total_cmp` order on the confidences, and the mapping is
/// invertible, so confidences are compared, selected and carried here
/// without floating point.
#[derive(Debug, Clone, Copy, PartialEq, Eq)]
pub struct Confidence {
    pub key: u32,
}

/// The key of `0.0`.
pub const ZERO_CONFIDENCE_KEY: u32 = 0x8000_0000;

/// The key of `1.0`.
pub const UNIT_CONFIDENCE_KEY: u32 = 0xBF80_0000;

impl Confidence {
    /// The confidence `0.0`.
    pub fn zero() -> (c: Self)
        ensures
            c.key == ZERO_CONFIDENCE_KEY,
    {
        Confidence { key: ZERO_CONFIDENCE_KEY }
    }

    /// The confidence `1.0`.
    pub fn unit() -> (c: Self)
        ensures
            c.key == UNIT_CONFIDENCE_KEY,
    {
        Confidence { key: UNIT_CONFIDENCE_KEY }
    }
}

/// A lateral edge weight, carried by the same order key as [`Confidence`].
#[derive(Debug, Clone, Copy, PartialEq, Eq)]
pub struct Weight {
    pub key: u32,
}

/// A localized coordinate map that bounds a column's perception to a
/// spatial or conceptual region. Its schema is structural JSON, carried as
/// its text.
#[derive(Debug)]
pub struct ReferenceFrame {
    /// Stable identifier for the frame (e.g. `"left-visual-field"`).
    pub id: String,
    /// What the frame covers.
    pub description: String,
    /// The JSON schema bounding the frame's coordinate space, as text.
    pub schema: String,
}

/// The configuration that turns a generic inference call into a
/// specialized column.
#[derive(Debug)]
pub struct ColumnSpec {
    pub id: ColumnId,
    pub modality: Modality,
    pub reference_frame: ReferenceFrame,
    /// The domain-specific system prompt.
    pub system_prompt: String,
}

/// One column's prediction about its slice of the world.
#[derive(Debug)]
pub struct ColumnOutput {
    pub column: ColumnId,
    /// The prediction, structured per the column's frame, as JSON text.
    pub prediction: String,
    /// The self-reported confidence, by its order key.
    pub confidence: Confidence,
}

/// A message passed along a lateral connection from one column to a
/// neighbor.
#[derive(Debug)]
pub struct LateralMessage {
    pub from: ColumnId,
    pub to: ColumnId,
    /// The neighbor context injected into the receiver's prompt.
    pub context: String,
    /// The weight of this neighbor's vote, by its order key.
    pub weight: Weight,
}

/// A weighted edge list between column ids: `(from, to, weight)`.
#[derive(Debug)]
pub struct Topology {
    pub edges: Vec<(ColumnId, ColumnId, Weight)>,
}

/// The sources that listen into `column`: for each edge ending at it, in
/// order, the edge's origin and weight key.
pub open spec fn incoming(edges: Seq<(ColumnId, ColumnId, Weight)>, column: ColumnId) -> Seq<(u64, u32)>
    decreases edges.len(),
{
    if edges.len() == 0 {
        Seq::empty()
    } else {
        let prev = incoming(edges.drop_last(), column);
        let e = edges.last();
        if e.1.0 == column.0 {
            prev.push((e.0.0, e.2.key))
        } else {
            prev
        }
    }
}

impl Topology {
    /// An empty topology.
    pub fn new() -> (t: Self)
        ensures
            t.edges@.len() == 0,
    {
        Topology { edges: Vec::new() }
    }

    /// Connect `from -> to` with the given weight.
    pub fn connect(&mut self, from: ColumnId, to: ColumnId, weight: Weight)
        ensures
            final(self).edges@ == old(self).edges@.push((from, to, weight)),
    {
        self.edges.push((from, to, weight));
    }

    /// The edges into `column`, as `(origin, weight)`, in edge order.
    pub fn neighbors(&self, column: &ColumnId) -> (r: Vec<(ColumnId, Weight)>)
        ensures
            r@.map_values(|x: (ColumnId, Weight)| (x.0.0, x.1.key)) == incoming(self.edges@, *column),
    {
        let mut r: Vec<(ColumnId, Weight)> = Vec::new();
        let mut j: usize = 0;
        while j < self.edges.len()
            invariant
                0 <= j <= self.edges@.len(),
                r@.map_values(|x: (ColumnId, Weight)| (x.0.0, x.1.key)) == incoming(self.edges@.take(j as int), *column),
            decreases self.edges@.len() - j,
        {
            let (from, to, w) = self.edges[j];
            assert(self.edges@.take(j + 1).drop_last() =~= self.edges@.take(j as int));
            let ghost before = r@;
            if to.0 == column.0 {
                r.push((from, w));
                assert(r@.map_values(|x: (ColumnId, Weight)| (x.0.0, x.1.key)) =~= before.map_values(
                    |x: (ColumnId, Weight)| (x.0.0, x.1.key),
                ).push((from.0, w.key)));
            }
            j = j + 1;
        }
        assert(self.edges@.take(j as int) =~= self.edges@);
        r
    }
}

/// A single cortical column: an identity, a domain sphere, the system
/// prompt that enforces its reference frame, and the state it last
/// reported.
#[derive(Debug)]
pub struct CorticalColumn {
    /// Unique identifier (e.g. `CC_PHYSICS_01`).
    pub id: String,
    /// Domain specialization.
    pub sphere: DomainSphere,
    /// Immutable base instruction set mapping inputs to the column's frame.
    pub system_prompt: String,
    /// Where the column last placed itself in its reference frame.
    pub current_coordinate: String,
    /// The column's most recent prediction (empty before its first tick).
    pub last_prediction: String,
    /// The column's most recent self-reported confidence.
    pub last_confidence: Confidence,
    /// Number of ticks the column has recorded.
    pub ticks_recorded: u64,
}

/// The abstract state of a column.
pub struct ColumnView {
    pub id: Seq<char>,
    pub sphere: DomainSphere,
    pub system_prompt: Seq<char>,
    pub current_coordinate: Seq<char>,
    pub last_prediction: Seq<char>,
    pub last_confidence: u32,
    pub ticks_recorded: nat,
}

impl View for CorticalColumn {
    type V = ColumnView;

    open spec fn view(&self) -> ColumnView {
        ColumnView {
            id: self.id@,
            sphere: self.sphere,
            system_prompt: self.system_prompt@,
            current_coordinate: self.current_coordinate@,
            last_prediction: self.last_prediction@,
            last_confidence: self.last_confidence.key,
            ticks_recorded: self.ticks_recorded as nat,
        }
    }
}

/// The coordinate a column starts at.
pub open spec fn origin_coordinate() -> Seq<char> {
    "0.0,0.0,0.0"@
}

/// A column that has not yet run a tick.
pub open spec fn fresh_column(id: Seq<char>, sphere: DomainSphere, prompt: Seq<char>) -> ColumnView {
    ColumnView {
        id,
        sphere,
        system_prompt: prompt,
        current_coordinate: origin_coordinate(),
        last_prediction: Seq::empty(),
        last_confidence: ZERO_CONFIDENCE_KEY,
        ticks_recorded: 0,
    }
}

/// A column after recording a tick's coordinate, prediction and
/// confidence; its tick count grows by one, saturating at `u64::MAX`.
pub open spec fn after_tick(c: ColumnView, coordinate: Seq<char>, prediction: Seq<char>, key: u32) -> ColumnView {
    ColumnView {
        current_coordinate: coordinate,
        last_prediction: prediction,
        last_confidence: key,
        ticks_recorded: if c.ticks_recorded < u64::MAX { c.ticks_recorded + 1 } else { c.ticks_recorded },
        ..c
    }
}

impl CorticalColumn {
    /// A fresh column: origin coordinate, no prediction, zero confidence.
    pub fn new(id: &str, sphere: DomainSphere, prompt: &str) -> (c: Self)
        ensures
            c@ == fresh_column(id@, sphere, prompt@),
    {
        CorticalColumn {
            id: own_str(id),
            sphere,
            system_prompt: own_str(prompt),
            current_coordinate: own_str("0.0,0.0,0.0"),
            last_prediction: String::new(),
            last_confidence: Confidence::zero(),
            ticks_recorded: 0,
        }
    }

    /// A fresh column using the sphere's reference prompt.
    pub fn with_defaults(id: &str, sphere: DomainSphere) -> (c: Self)
        ensures
            c@ == fresh_column(id@, sphere, sphere_prompt(sphere)),
    {
        CorticalColumn::new(id, sphere, default_prompt(sphere))
    }

    /// A copy of this column.
    pub fn duplicate(&self) -> (c: Self)
        ensures
            c@ == self@,
    {
        CorticalColumn {
            id: copy_string(&self.id),
            sphere: self.sphere,
            system_prompt: copy_string(&self.system_prompt),
            current_coordinate: copy_string(&self.current_coordinate),
            last_prediction: copy_string(&self.last_prediction),
            last_confidence: self.last_confidence,
            ticks_recorded: self.ticks_recorded,
        }
    }

    /// Record the outcome of a tick: the column's new coordinate,
    /// prediction and confidence. The tick count saturates at `u64::MAX`.
    pub fn record_tick(&mut self, coordinate: &str, prediction: &str, confidence: Confidence)
        ensures
            final(self)@ == after_tick(old(self)@, coordinate@, prediction@, confidence.key),
    {
        self.current_coordinate = own_str(coordinate);
        self.last_prediction = own_str(prediction);
        self.last_confidence = confidence;
        self.ticks_recorded = self.ticks_recorded.saturating_add(1);
    }
}

// ---------------------------------------------------------------------------
// Reference prompts and population
// ---------------------------------------------------------------------------

/// The physics column's system prompt.
pub const PROMPT_PHYSICS: &'static str = "
ROLE: Cortical Column - Primary Physics Sensor.
CONTEXT COMPARTMENTALIZATION: You parse all incoming inputs strictly through the laws of classical mechanics, thermodynamics, kinetics, electromagnetism, and quantum principles. Ignore emotional intent, language syntax, or historical origin.
REFERENCE FRAME: Map the input data to a spatial reference frame consisting of forces (vectors), energy fields (Joules), masses (kg), and thermodynamic gradients.
OUTPUT FORMAT: You must output a structured JSON schema conforming exactly to:
{
  \"reference_frame_coordinates\": \"x,y,z spatial/conceptual bounds\",
  \"isolated_variables\": [\"var1\", \"var2\"],
  \"empirical_observation\": \"Brief summary of input through physical laws\",
  \"prediction\": \"What the system will do next based on physical mechanics\",
  \"confidence\": 0.00
}
Do not include any conversational filler outside the JSON block.
";

/// The mathematics column's system prompt.
pub const PROMPT_MATHEMATICS: &'static str = "
ROLE: Cortical Column - Quantitative Reasoning Engine.
CONTEXT COMPARTMENTALIZATION: You analyze inputs strictly for mathematical constants, geometric structures, algorithmic complexity, numerical relationships, and formal logic. Ignore material composition, time period, and human bias.
REFERENCE FRAME: Establish an algebraic, geometric, or statistical coordinate structure.
OUTPUT FORMAT: Output a structured JSON schema:
{
  \"reference_frame_coordinates\": \"matrix or tensor spatial bounds\",
  \"axiomatic_assertions\": [\"assertion1\", \"assertion2\"],
  \"deductive_synthesis\": \"Brief formal proof or numerical analysis\",
  \"prediction\": \"Extrapolated quantitative trend line\",
  \"confidence\": 0.00
}
";

/// The coding column's system prompt.
pub const PROMPT_CODING: &'static str = "
ROLE: Cortical Column - Algorithmic Synthesis Unit.
CONTEXT COMPARTMENTALIZATION: Interpret incoming information as software systems, computational logic, control flows, state machines, data structures, and algorithmic transformations.
REFERENCE FRAME: Map data to a computational graph or state transition matrix.
OUTPUT FORMAT: Output a structured JSON schema:
{
  \"reference_frame_coordinates\": \"state_machine_id / memory_offset\",
  \"state_variables\": [\"param1\", \"param2\"],
  \"algorithmic_analysis\": \"Logic evaluation, time complexity big-O, structure verification\",
  \"prediction\": \"Deterministic outcome of execution flow\",
  \"confidence\": 0.00
}
";

/// The psychology column's system prompt.
pub const PROMPT_PSYCHOLOGY: &'static str = "
ROLE: Cortical Column - Behavioral / Intention Analyzer.
CONTEXT COMPARTMENTALIZATION: Evaluate inputs purely for human psychological states, evolutionary drivers, cognitive biases, communicative intent, emotional dynamics, or behavioral patterns.
REFERENCE FRAME: Map data to a psychological profile or sociometric matrix.
OUTPUT FORMAT: Output a structured JSON schema:
{
  \"reference_frame_coordinates\": \"emotional_valence / behavioral_vector\",
  \"cognitive_biases\": [\"bias1\", \"bias2\"],
  \"behavioral_synthesis\": \"Assessment of underlying motivation or intent\",
  \"prediction\": \"Expected behavioral choice or adaptation profile\",
  \"confidence\": 0.00
}
";

/// A sphere's reference prompt.
pub open spec fn sphere_prompt(s: DomainSphere) -> Seq<char> {
    match s {
        DomainSphere::Physics => PROMPT_PHYSICS@,
        DomainSphere::Mathematics => PROMPT_MATHEMATICS@,
        DomainSphere::Coding => PROMPT_CODING@,
        DomainSphere::Psychology => PROMPT_PSYCHOLOGY@,
    }
}

/// A sphere's reference prompt.
pub fn default_prompt(s: DomainSphere) -> (p: &'static str)
    ensures
        p@ == sphere_prompt(s),
{
    match s {
        DomainSphere::Physics => PROMPT_PHYSICS,
        DomainSphere::Mathematics => PROMPT_MATHEMATICS,
        DomainSphere::Coding => PROMPT_CODING,
        DomainSphere::Psychology => PROMPT_PSYCHOLOGY,
    }
}

/// The id stem of a sphere's reference columns.
pub open spec fn sphere_stem(s: DomainSphere) -> Seq<char> {
    match s {
        DomainSphere::Physics => "CC_PHYSICS"@,
        DomainSphere::Mathematics => "CC_MATH"@,
        DomainSphere::Coding => "CC_CODE"@,
        DomainSphere::Psychology => "CC_PSYCH"@,
    }
}

fn stem(s: DomainSphere) -> (r: &'static str)
    ensures
        r@ == sphere_stem(s),
{
    match s {
        DomainSphere::Physics => "CC_PHYSICS",
        DomainSphere::Mathematics => "CC_MATH",
        DomainSphere::Coding => "CC_CODE",
        DomainSphere::Psychology => "CC_PSYCH",
    }
}

/// The sphere of position `k` in the round-robin Physics, Mathematics,
/// Coding, Psychology.
pub open spec fn round_robin_sphere(k: int) -> DomainSphere {
    if k % 4 == 0 {
        DomainSphere::Physics
    } else if k % 4 == 1 {
        DomainSphere::Mathematics
    } else if k % 4 == 2 {
        DomainSphere::Coding
    } else {
        DomainSphere::Psychology
    }
}

/// The id of the `k`-th replicated reference column: the sphere's stem and
/// its 1-based replica number, zero-padded to two digits
/// (`CC_PHYSICS_01`, `CC_MATH_01`, ..., `CC_PHYSICS_02`, ...).
pub open spec fn replicated_id(k: int) -> Seq<char> {
    sphere_stem(round_robin_sphere(k)) + "_"@ + decimal_padded((k / 4 + 1) as nat, 2)
}

/// The `k`-th replicated reference column.
pub open spec fn replicated_column(k: int) -> ColumnView {
    fresh_column(replicated_id(k), round_robin_sphere(k), sphere_prompt(round_robin_sphere(k)))
}

/// `n` reference columns cycling through the four spheres, each with its
/// sphere's reference prompt: `CC_PHYSICS_01`, `CC_MATH_01`, `CC_CODE_01`,
/// `CC_PSYCH_01`, `CC_PHYSICS_02`, ...
pub fn replicated_default_columns(n: usize) -> (cols: Vec<CorticalColumn>)
    requires
        n <= u64::MAX,
    ensures
        cols@.len() == n,
        forall|k: int| 0 <= k < n ==> (#[trigger] cols@[k])@ == replicated_column(k),
{
    let mut cols: Vec<CorticalColumn> = Vec::new();
    let mut k: usize = 0;
    while k < n
        invariant
            0 <= k <= n <= u64::MAX,
            cols@.len() == k,
            forall|j: int| 0 <= j < k ==> (#[trigger] cols@[j])@ == replicated_column(j),
        decreases n - k,
    {
        let sphere = if k % 4 == 0 {
            DomainSphere::Physics
        } else if k % 4 == 1 {
            DomainSphere::Mathematics
        } else if k % 4 == 2 {
            DomainSphere::Coding
        } else {
            DomainSphere::Psychology
        };
        let mut id: Vec<char> = Vec::new();
        push_str(&mut id, stem(sphere));
        push_str(&mut id, "_");
        push_decimal_padded(&mut id, (k / 4 + 1) as u64, 2);
        let id_s = string_of(&id);
        let col = CorticalColumn::new(id_s.as_str(), sphere, default_prompt(sphere));
        cols.push(col);
        k = k + 1;
    }
    cols
}

/// The four named reference columns: `CC_PHYSICS_01`, `CC_MATH_01`,
/// `CC_CODE_01`, `CC_PSYCH_01`.
pub fn default_columns() -> (cols: Vec<CorticalColumn>)
    ensures
        cols@.len() == 4,
        forall|k: int| 0 <= k < 4 ==> (#[trigger] cols@[k])@ == replicated_column(k),
{
    replicated_default_columns(4)
}

/// The reference wiring as `(listener, source)` pairs: PHYSICS listens to
/// MATH; MATH to PHYSICS and CODE; CODE to PSYCH; PSYCH is the sink.
pub open spec fn reference_edges() -> Seq<(Seq<char>, Seq<char>)> {
    seq![
        ("CC_PHYSICS_01"@, "CC_MATH_01"@),
        ("CC_MATH_01"@, "CC_PHYSICS_01"@),
        ("CC_MATH_01"@, "CC_CODE_01"@),
        ("CC_CODE_01"@, "CC_PSYCH_01"@),
    ]
}

/// The reference wiring as `(listener, source)` pairs.
pub fn default_connections() -> (v: Vec<(&'static str, &'static str)>)
    ensures
        v@.len() == 4,
        forall|k: int| 0 <= k < 4 ==> ((#[trigger] v@[k]).0@, v@[k].1@) == reference_edges()[k],
{
    let mut v: Vec<(&'static str, &'static str)> = Vec::new();
    v.push(("CC_PHYSICS_01", "CC_MATH_01"));
    v.push(("CC_MATH_01", "CC_PHYSICS_01"));
    v.push(("CC_MATH_01", "CC_CODE_01"));
    v.push(("CC_CODE_01", "CC_PSYCH_01"));
    v
}

} // verus!
