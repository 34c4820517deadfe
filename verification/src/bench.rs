//! The benchmark harness's bookkeeping: its conditions, the order runs are
//! made in and how each is identified, the roll-up of per-call usage, and
//! the integer statistics of the summary (counts, medians, extremes).
use vstd::prelude::*;
use vstd::relations::{sorted_by, total_ordering};

use crate::column::{PROMPT_CODING, PROMPT_MATHEMATICS, PROMPT_PHYSICS, PROMPT_PSYCHOLOGY};
use crate::text::{decimal, push_decimal, push_str, str_eq, string_of};

verus! {

/// The benchmark conditions.
#[derive(Debug, Clone, Copy, PartialEq, Eq)]
pub enum Condition {
    /// The mesh: four sphere columns, lateral voting, convergence.
    MeshAdaptive,
    /// One monolithic call with all four sphere prompts.
    MonoAllPrompts,
    /// Four identical monolithic calls.
    MonoX4,
    /// Four sphere calls without lateral context (a one-tick mesh).
    SphereX4NoLateral,
}

/// The label of a condition.
pub open spec fn condition_text(c: Condition) -> Seq<char> {
    match c {
        Condition::MeshAdaptive => "mesh_adaptive"@,
        Condition::MonoAllPrompts => "mono_all_prompts"@,
        Condition::MonoX4 => "mono_x4"@,
        Condition::SphereX4NoLateral => "sphere_x4_no_lateral"@,
    }
}

impl Condition {
    /// The condition's label in records and reports.
    pub fn label(self) -> (s: &'static str)
        ensures
            s@ == condition_text(self),
    {
        match self {
            Condition::MeshAdaptive => "mesh_adaptive",
            Condition::MonoAllPrompts => "mono_all_prompts",
            Condition::MonoX4 => "mono_x4",
            Condition::SphereX4NoLateral => "sphere_x4_no_lateral",
        }
    }
}

/// The conditions a run covers: the one asked for, or all four in the
/// standard order (mesh, its no-lateral control, then the monolithic
/// baselines).
pub fn selected_conditions(only: Option<Condition>) -> (v: Vec<Condition>)
    ensures
        v@ == match only {
            Some(c) => seq![c],
            None => seq![
                Condition::MeshAdaptive,
                Condition::SphereX4NoLateral,
                Condition::MonoAllPrompts,
                Condition::MonoX4,
            ],
        },
{
    let mut v: Vec<Condition> = Vec::new();
    match only {
        Some(c) => v.push(c),
        None => {
            v.push(Condition::MeshAdaptive);
            v.push(Condition::SphereX4NoLateral);
            v.push(Condition::MonoAllPrompts);
            v.push(Condition::MonoX4);
        },
    }
    assert(v@ =~= match only {
        Some(c) => seq![c],
        None => seq![
            Condition::MeshAdaptive,
            Condition::SphereX4NoLateral,
            Condition::MonoAllPrompts,
            Condition::MonoX4,
        ],
    });
    v
}

/// The order conditions run in for a repeat and prompt: rotated left by
/// `(repeat + prompt) mod len`, so no condition is always first.
pub fn run_order(conditions: &Vec<Condition>, repeat: u32, prompt_index: usize) -> (v: Vec<Condition>)
    requires
        repeat + prompt_index <= usize::MAX,
    ensures
        v@.len() == conditions@.len(),
        forall|k: int| 0 <= k < v@.len() ==> #[trigger] v@[k] == conditions@[(k + (repeat + prompt_index) % (
            conditions@.len() as int)) % (conditions@.len() as int)],
{
    let n = conditions.len();
    let mut v: Vec<Condition> = Vec::new();
    if n == 0 {
        return v;
    }
    let rot = (repeat as usize + prompt_index) % n;
    let mut k: usize = 0;
    while k < n
        invariant
            n == conditions@.len(),
            n > 0,
            rot == (repeat + prompt_index) % (n as int),
            0 <= k <= n,
            v@.len() == k,
            forall|t: int| 0 <= t < k ==> #[trigger] v@[t] == conditions@[(t + rot) % (n as int)],
        decreases n - k,
    {
        let src = if k < n - rot { k + rot } else { k - (n - rot) };
        assert(src == (k + rot) % (n as int)) by {
            assert(rot < n);
            if k < n - rot {
                assert((k + rot) % (n as int) == k + rot) by (nonlinear_arith)
                    requires
                        0 <= k + rot < n,
                ;
            } else {
                assert((k + rot) % (n as int) == k + rot - n) by (nonlinear_arith)
                    requires
                        n <= k + rot < 2 * n,
                ;
            }
        }
        v.push(conditions[src]);
        k = k + 1;
    }
    v
}

/// Every condition runs once per repeat and prompt: the run order is a
/// rotation, so each of the conditions appears in it.
pub proof fn law_run_order_covers(conditions: Seq<Condition>, rot: int, v: Seq<Condition>, t: int)
    requires
        conditions.len() > 0,
        0 <= rot,
        v.len() == conditions.len(),
        forall|k: int| 0 <= k < v.len() ==> #[trigger] v[k] == conditions[(k + rot % (conditions.len() as int)) % (
            conditions.len() as int)],
        0 <= t < conditions.len(),
    ensures
        v.contains(conditions[t]),
{
    let n = conditions.len() as int;
    let r = rot % n;
    let k = if t >= r { t - r } else { t - r + n };
    assert(0 <= r < n) by (nonlinear_arith)
        requires
            n > 0,
            r == rot % n,
            rot >= 0,
    ;
    assert((k + r) % n == t) by (nonlinear_arith)
        requires
            0 <= t < n,
            0 <= r < n,
            k == if t >= r { t - r } else { t - r + n },
    ;
    assert(v[k] == conditions[t]);
}

/// The per-run nonce: `seed * 1_000_000 + repeat * 1000 + prompt_index`,
/// each step saturating at `u64::MAX`.
pub open spec fn nonce_of(seed: u64, repeat: u32, prompt_index: usize) -> u64 {
    let a = if seed * 1_000_000 > u64::MAX { u64::MAX as int } else { seed * 1_000_000 };
    let b = if a + repeat * 1000 > u64::MAX { u64::MAX as int } else { a + repeat * 1000 };
    let c = if b + prompt_index > u64::MAX { u64::MAX as int } else { b + prompt_index };
    c as u64
}

/// The nonce that keeps a run's prompt from reusing a cached prefix.
pub fn run_nonce(seed: u64, repeat: u32, prompt_index: usize) -> (n: u64)
    requires
        prompt_index <= u64::MAX,
    ensures
        n == nonce_of(seed, repeat, prompt_index),
{
    let r = (repeat as u64) * 1000;
    let a = match seed.checked_mul(1_000_000) {
        Some(a) => a,
        None => u64::MAX,
    };
    a.saturating_add(r).saturating_add(prompt_index as u64)
}

/// A run's identifier: `<condition>_<prompt>_<repeat>_<nonce>`.
pub fn run_id(condition: Condition, prompt_id: &str, repeat: u32, nonce: u64) -> (s: String)
    ensures
        s@ == condition_text(condition) + "_"@ + prompt_id@ + "_"@ + decimal(repeat as nat) + "_"@ + decimal(nonce as nat),
{
    let mut v: Vec<char> = Vec::new();
    push_str(&mut v, condition.label());
    push_str(&mut v, "_");
    push_str(&mut v, prompt_id);
    push_str(&mut v, "_");
    push_decimal(&mut v, repeat as u64);
    push_str(&mut v, "_");
    push_decimal(&mut v, nonce);
    string_of(&v)
}

/// The monolithic completion cap: the explicit cap, else the per-column
/// cap times the multiplier (saturating).
pub fn mono_token_budget(explicit: Option<u32>, per_column: u32, multiplier: u32) -> (b: u32)
    ensures
        b == match explicit {
            Some(m) => m,
            None => if per_column * multiplier > u32::MAX { u32::MAX } else { (per_column * multiplier) as u32 },
        },
{
    match explicit {
        Some(m) => m,
        None => match per_column.checked_mul(multiplier) {
            Some(b) => b,
            None => u32::MAX,
        },
    }
}

/// Check that convergence is not gated beyond the tick cap.
pub fn check_tick_bounds(min_ticks: u32, max_ticks: u32) -> (r: Result<(), String>)
    ensures
        match r {
            Ok(()) => min_ticks <= max_ticks,
            Err(m) => min_ticks > max_ticks && m@ == "--min-ticks ("@ + decimal(min_ticks as nat)
                + ") must be <= --max-ticks ("@ + decimal(max_ticks as nat) + ")"@,
        },
{
    if min_ticks > max_ticks {
        let mut v: Vec<char> = Vec::new();
        push_str(&mut v, "--min-ticks (");
        push_decimal(&mut v, min_ticks as u64);
        push_str(&mut v, ") must be <= --max-ticks (");
        push_decimal(&mut v, max_ticks as u64);
        push_str(&mut v, ")");
        return Err(string_of(&v));
    }
    Ok(())
}

// ---------------------------------------------------------------------------
// Prompts
// ---------------------------------------------------------------------------

/// The closing instruction of the monolithic prompt.
pub const MONO_INSTRUCTION: &'static str = "Return ONE JSON object with keys \"empirical\", \"mathematics\", \"coding\", \"psychology\" — each an object containing at least {\"reference_frame_coordinates\": ..., \"prediction\": ..., \"confidence\": 0.0} giving that perspective's analysis.";

/// The text every condition answers: a run identifier placed after the
/// static prompt prefixes and before the task, so repeated tasks do not
/// reuse a cached full prefix.
pub fn bench_input(nonce: u64, task: &str) -> (s: String)
    ensures
        s@ == "BENCH_RUN_ID: "@ + decimal(nonce as nat) + "; ignore this identifier.\n\nTASK:\n"@ + task@,
{
    let mut v: Vec<char> = Vec::new();
    push_str(&mut v, "BENCH_RUN_ID: ");
    push_decimal(&mut v, nonce);
    push_str(&mut v, "; ignore this identifier.\n\nTASK:\n");
    push_str(&mut v, task);
    string_of(&v)
}

/// The monolithic prompt: the four sphere prompts, the task, and an
/// instruction to answer from all four perspectives in one object.
pub fn mono_prompt(task: &str) -> (s: String)
    ensures
        s@ == PROMPT_PHYSICS@ + "\n\n"@ + PROMPT_MATHEMATICS@ + "\n\n"@ + PROMPT_CODING@ + "\n\n"@ + PROMPT_PSYCHOLOGY@
            + "\n\n"@ + task@ + "\n\n"@ + MONO_INSTRUCTION@,
{
    let mut v: Vec<char> = Vec::new();
    push_str(&mut v, PROMPT_PHYSICS);
    push_str(&mut v, "\n\n");
    push_str(&mut v, PROMPT_MATHEMATICS);
    push_str(&mut v, "\n\n");
    push_str(&mut v, PROMPT_CODING);
    push_str(&mut v, "\n\n");
    push_str(&mut v, PROMPT_PSYCHOLOGY);
    push_str(&mut v, "\n\n");
    push_str(&mut v, task);
    push_str(&mut v, "\n\n");
    push_str(&mut v, MONO_INSTRUCTION);
    string_of(&v)
}

/// Whether a key list holds a key.
pub open spec fn has_key(keys: Seq<Seq<char>>, k: Seq<char>) -> bool {
    keys.contains(k)
}

/// The perspective an output speaks from, by the first sphere-specific key
/// it carries.
pub open spec fn perspective_of(keys: Seq<Seq<char>>) -> Seq<char> {
    if has_key(keys, "empirical_observation"@) {
        "empirical"@
    } else if has_key(keys, "deductive_synthesis"@) {
        "mathematics"@
    } else if has_key(keys, "algorithmic_analysis"@) {
        "coding"@
    } else if has_key(keys, "behavioral_synthesis"@) {
        "psychology"@
    } else {
        "unknown"@
    }
}

fn holds_key(keys: &Vec<String>, k: &str) -> (r: bool)
    ensures
        r == has_key(keys@.map_values(|x: String| x@), k@),
{
    let ghost kv = keys@.map_values(|x: String| x@);
    let mut i: usize = 0;
    while i < keys.len()
        invariant
            0 <= i <= keys@.len(),
            kv == keys@.map_values(|x: String| x@),
            forall|j: int| 0 <= j < i ==> kv[j] != k@,
        decreases keys@.len() - i,
    {
        if str_eq(keys[i].as_str(), k) {
            assert(kv[i as int] == k@);
            return true;
        }
        i = i + 1;
    }
    false
}

/// The perspective label of an output, given the names of its
/// sphere-specific fields.
pub fn perspective_label(keys: &Vec<String>) -> (r: &'static str)
    ensures
        r@ == perspective_of(keys@.map_values(|x: String| x@)),
{
    if holds_key(keys, "empirical_observation") {
        "empirical"
    } else if holds_key(keys, "deductive_synthesis") {
        "mathematics"
    } else if holds_key(keys, "algorithmic_analysis") {
        "coding"
    } else if holds_key(keys, "behavioral_synthesis") {
        "psychology"
    } else {
        "unknown"
    }
}

// ---------------------------------------------------------------------------
// Sums and medians
// ---------------------------------------------------------------------------

/// The exact sum of the present values.
pub open spec fn present_total(v: Seq<Option<u32>>) -> int
    decreases v.len(),
{
    if v.len() == 0 {
        0
    } else {
        present_total(v.drop_last()) + match v.last() {
            Some(x) => x as int,
            None => 0,
        }
    }
}

/// The sum of optional counts: none if any is missing, otherwise the
/// total, saturating at `u64::MAX`.
pub open spec fn opt_total(v: Seq<Option<u32>>) -> Option<u64> {
    if exists|k: int| 0 <= k < v.len() && (#[trigger] v[k]) is None {
        None
    } else if present_total(v) > u64::MAX {
        Some(u64::MAX)
    } else {
        Some(present_total(v) as u64)
    }
}

/// Sum optional counts: none if any is missing, otherwise the total,
/// saturating at `u64::MAX`.
pub fn sum_opt(values: &Vec<Option<u32>>) -> (r: Option<u64>)
    ensures
        r == opt_total(values@),
{
    let mut total: u64 = 0;
    let mut j: usize = 0;
    while j < values.len()
        invariant
            0 <= j <= values@.len(),
            forall|k: int| 0 <= k < j ==> (#[trigger] values@[k]) is Some,
            total == if present_total(values@.take(j as int)) > u64::MAX {
                u64::MAX as int
            } else {
                present_total(values@.take(j as int))
            },
        decreases values@.len() - j,
    {
        assert(values@.take(j + 1).drop_last() =~= values@.take(j as int));
        assert(values@.take(j + 1).last() == values@[j as int]);
        match values[j] {
            Some(x) => {
                total = total.saturating_add(x as u64);
            },
            None => {
                assert(values@[j as int] is None);
                return None;
            },
        }
        j = j + 1;
    }
    assert(values@.take(j as int) =~= values@);
    Some(total)
}

/// One call's usage figures.
#[derive(Debug, Clone, Copy, PartialEq, Eq)]
pub struct CallUsage {
    pub prompt_tokens: Option<u32>,
    pub completion_tokens: Option<u32>,
    pub total_tokens: Option<u32>,
    pub cached_tokens: Option<u32>,
    pub latency_ms: u64,
    /// The call ended because it hit its length cap.
    pub truncated: bool,
}

/// A run's usage, rolled up over its calls.
#[derive(Debug, Clone, Copy, PartialEq, Eq)]
pub struct UsageTotals {
    pub call_count: u32,
    pub sum_call_latency_ms: u64,
    /// Any call truncated.
    pub truncated: bool,
    pub prompt_tokens_gross: Option<u64>,
    pub completion_tokens_gross: Option<u64>,
    pub total_tokens_gross: Option<u64>,
    pub cached_tokens_gross: Option<u64>,
    /// Prompt tokens with each cached prefix counted once:
    /// `prompt - cached`, saturating at 0.
    pub prompt_tokens_cache_adjusted: Option<u64>,
    /// The compute-equivalent total: `total - cached`, saturating at 0.
    pub total_tokens_cache_adjusted: Option<u64>,
}

/// The total latency of the calls.
pub open spec fn latency_total(calls: Seq<CallUsage>) -> int
    decreases calls.len(),
{
    if calls.len() == 0 {
        0
    } else {
        latency_total(calls.drop_last()) + calls.last().latency_ms
    }
}

/// `a - b` saturating at 0, where both are known.
pub open spec fn adjusted(a: Option<u64>, b: Option<u64>) -> Option<u64> {
    match (a, b) {
        (Some(x), Some(y)) => Some(if x >= y { (x - y) as u64 } else { 0 }),
        _ => None,
    }
}

fn field_values(calls: &Vec<CallUsage>, which: u8) -> (r: Vec<Option<u32>>)
    ensures
        r@ == calls@.map_values(|c: CallUsage| if which == 0 {
            c.prompt_tokens
        } else if which == 1 {
            c.completion_tokens
        } else if which == 2 {
            c.total_tokens
        } else {
            c.cached_tokens
        }),
{
    let ghost want = calls@.map_values(|c: CallUsage| if which == 0 {
        c.prompt_tokens
    } else if which == 1 {
        c.completion_tokens
    } else if which == 2 {
        c.total_tokens
    } else {
        c.cached_tokens
    });
    let mut r: Vec<Option<u32>> = Vec::new();
    let mut j: usize = 0;
    while j < calls.len()
        invariant
            0 <= j <= calls@.len(),
            want == calls@.map_values(|c: CallUsage| if which == 0 {
                c.prompt_tokens
            } else if which == 1 {
                c.completion_tokens
            } else if which == 2 {
                c.total_tokens
            } else {
                c.cached_tokens
            }),
            r@ == want.take(j as int),
        decreases calls@.len() - j,
    {
        let c = calls[j];
        let x = if which == 0 {
            c.prompt_tokens
        } else if which == 1 {
            c.completion_tokens
        } else if which == 2 {
            c.total_tokens
        } else {
            c.cached_tokens
        };
        r.push(x);
        j = j + 1;
        assert(r@ =~= want.take(j as int));
    }
    assert(want.take(j as int) =~= want);
    r
}

fn saturating_gap(a: Option<u64>, b: Option<u64>) -> (r: Option<u64>)
    ensures
        r == adjusted(a, b),
{
    match (a, b) {
        (Some(x), Some(y)) => Some(if x >= y { x - y } else { 0 }),
        _ => None,
    }
}

/// Roll a run's per-call usage up: the call count (as `u32`), total
/// latency, whether any call truncated, the gross token sums (none when
/// any call lacks the figure), and the cache-adjusted prompt and total.
pub fn aggregate_usage(calls: &Vec<CallUsage>) -> (u: UsageTotals)
    requires
        latency_total(calls@) <= u64::MAX,
    ensures
        u.call_count == calls@.len() as u32,
        u.sum_call_latency_ms == latency_total(calls@),
        u.truncated == exists|k: int| 0 <= k < calls@.len() && (#[trigger] calls@[k]).truncated,
        u.prompt_tokens_gross == opt_total(calls@.map_values(|c: CallUsage| c.prompt_tokens)),
        u.completion_tokens_gross == opt_total(calls@.map_values(|c: CallUsage| c.completion_tokens)),
        u.total_tokens_gross == opt_total(calls@.map_values(|c: CallUsage| c.total_tokens)),
        u.cached_tokens_gross == opt_total(calls@.map_values(|c: CallUsage| c.cached_tokens)),
        u.prompt_tokens_cache_adjusted == adjusted(u.prompt_tokens_gross, u.cached_tokens_gross),
        u.total_tokens_cache_adjusted == adjusted(u.total_tokens_gross, u.cached_tokens_gross),
{
    let mut latency: u64 = 0;
    let mut truncated = false;
    let mut j: usize = 0;
    while j < calls.len()
        invariant
            0 <= j <= calls@.len(),
            latency_total(calls@) <= u64::MAX,
            latency == latency_total(calls@.take(j as int)),
            truncated == exists|k: int| 0 <= k < j && (#[trigger] calls@[k]).truncated,
        decreases calls@.len() - j,
    {
        assert(calls@.take(j + 1).drop_last() =~= calls@.take(j as int));
        proof {
            lemma_latency_prefix(calls@, j + 1);
        }
        latency = latency + calls[j].latency_ms;
        truncated = truncated || calls[j].truncated;
        j = j + 1;
    }
    assert(calls@.take(j as int) =~= calls@);
    let prompt = sum_opt(&field_values(calls, 0));
    let completion = sum_opt(&field_values(calls, 1));
    let total = sum_opt(&field_values(calls, 2));
    let cached = sum_opt(&field_values(calls, 3));
    proof {
        assert(calls@.map_values(|c: CallUsage| if 0u8 == 0 {
            c.prompt_tokens
        } else if 0u8 == 1 {
            c.completion_tokens
        } else if 0u8 == 2 {
            c.total_tokens
        } else {
            c.cached_tokens
        }) =~= calls@.map_values(|c: CallUsage| c.prompt_tokens));
        assert(calls@.map_values(|c: CallUsage| if 1u8 == 0 {
            c.prompt_tokens
        } else if 1u8 == 1 {
            c.completion_tokens
        } else if 1u8 == 2 {
            c.total_tokens
        } else {
            c.cached_tokens
        }) =~= calls@.map_values(|c: CallUsage| c.completion_tokens));
        assert(calls@.map_values(|c: CallUsage| if 2u8 == 0 {
            c.prompt_tokens
        } else if 2u8 == 1 {
            c.completion_tokens
        } else if 2u8 == 2 {
            c.total_tokens
        } else {
            c.cached_tokens
        }) =~= calls@.map_values(|c: CallUsage| c.total_tokens));
        assert(calls@.map_values(|c: CallUsage| if 3u8 == 0 {
            c.prompt_tokens
        } else if 3u8 == 1 {
            c.completion_tokens
        } else if 3u8 == 2 {
            c.total_tokens
        } else {
            c.cached_tokens
        }) =~= calls@.map_values(|c: CallUsage| c.cached_tokens));
    }
    UsageTotals {
        call_count: calls.len() as u32,
        sum_call_latency_ms: latency,
        truncated,
        prompt_tokens_gross: prompt,
        completion_tokens_gross: completion,
        total_tokens_gross: total,
        cached_tokens_gross: cached,
        prompt_tokens_cache_adjusted: saturating_gap(prompt, cached),
        total_tokens_cache_adjusted: saturating_gap(total, cached),
    }
}

proof fn lemma_latency_prefix(calls: Seq<CallUsage>, k: int)
    requires
        0 <= k <= calls.len(),
    ensures
        latency_total(calls.take(k)) <= latency_total(calls),
    decreases calls.len() - k,
{
    if k < calls.len() {
        lemma_latency_prefix(calls, k + 1);
        assert(calls.take(k + 1).drop_last() =~= calls.take(k));
    } else {
        assert(calls.take(k) =~= calls);
    }
}

/// The order `<=` on counts.
pub open spec fn count_le() -> spec_fn(u64, u64) -> bool {
    |a: u64, b: u64| a <= b
}

proof fn lemma_count_le_total()
    ensures
        total_ordering(count_le()),
{
}

/// The values in ascending order.
pub open spec fn sorted_counts(xs: Seq<u64>) -> Seq<u64> {
    xs.sort_by(count_le())
}

/// The values in ascending order.
pub fn sorted_copy(xs: &Vec<u64>) -> (r: Vec<u64>)
    ensures
        r@ == sorted_counts(xs@),
{
    broadcast use vstd::seq_lib::group_to_multiset_ensures;
    let mut v: Vec<u64> = Vec::new();
    let mut i: usize = 0;
    while i < xs.len()
        invariant
            0 <= i <= xs@.len(),
            sorted_by(v@, count_le()),
            v@.to_multiset() == xs@.take(i as int).to_multiset(),
        decreases xs@.len() - i,
    {
        let x = xs[i];
        let mut p: usize = 0;
        while p < v.len() && v[p] <= x
            invariant
                0 <= p <= v@.len(),
                forall|t: int| 0 <= t < p ==> v@[t] <= x,
            decreases v@.len() - p,
        {
            p = p + 1;
        }
        let ghost old_v = v@;
        proof {
            // Everything from p on is greater than x.
            assert forall|t: int| p <= t < old_v.len() implies old_v[t] > x by {
                if p < old_v.len() {
                    assert(old_v[p as int] > x);
                    if t > p {
                        assert(count_le()(old_v[p as int], old_v[t]));
                    }
                }
            }
        }
        v.insert(p, x);
        proof {
            assert(v@ == old_v.insert(p as int, x));
            assert forall|a: int, b: int| 0 <= a < b < v@.len() implies #[trigger] count_le()(v@[a], v@[b]) by {
                if a < p && b < p {
                    assert(count_le()(old_v[a], old_v[b]));
                } else if a < p && b == p {
                } else if a < p && b > p {
                    assert(old_v[a] <= x);
                } else if a == p {
                    assert(old_v[b - 1] > x);
                } else {
                    assert(count_le()(old_v[a - 1], old_v[b - 1]));
                }
            }
            assert(xs@.take(i + 1) =~= xs@.take(i as int).push(x));
            vstd::seq_lib::to_multiset_insert(old_v, p as int, x);
            vstd::seq_lib::to_multiset_build(xs@.take(i as int), x);
        }
        i = i + 1;
    }
    proof {
        assert(xs@.take(i as int) =~= xs@);
        lemma_count_le_total();
        xs@.lemma_sort_by_ensures(count_le());
        vstd::seq_lib::lemma_sorted_unique(v@, xs@.sort_by(count_le()), count_le());
    }
    v
}

/// The median: the middle element of the ascending values (the upper
/// middle for an even count), or 0 for no values.
pub open spec fn median_of(xs: Seq<u64>) -> u64 {
    if xs.len() == 0 {
        0
    } else {
        sorted_counts(xs)[(xs.len() / 2) as int]
    }
}

/// The median of counts (0 for none).
pub fn median(xs: &Vec<u64>) -> (m: u64)
    ensures
        m == median_of(xs@),
{
    if xs.len() == 0 {
        return 0;
    }
    let v = sorted_copy(xs);
    proof {
        broadcast use vstd::seq_lib::group_to_multiset_ensures;
        lemma_count_le_total();
        xs@.lemma_sort_by_ensures(count_le());
        vstd::seq_lib::to_multiset_len(xs@);
        vstd::seq_lib::to_multiset_len(v@);
        assert(v@.len() == xs@.len());
    }
    v[xs.len() / 2]
}

/// The median of counts, or none when there are none.
pub fn median_opt(xs: &Vec<u64>) -> (m: Option<u64>)
    ensures
        m == if xs@.len() == 0 { None } else { Some(median_of(xs@)) },
{
    if xs.len() == 0 {
        None
    } else {
        Some(median(xs))
    }
}

// ---------------------------------------------------------------------------
// Summary statistics
// ---------------------------------------------------------------------------

/// The figures of one run record that the summary reads.
#[derive(Debug)]
pub struct RunFigures {
    pub condition: String,
    pub parse_ok: bool,
    pub wall_latency_ms: u64,
    pub sum_call_latency_ms: u64,
    pub total_tokens_gross: Option<u64>,
    pub total_tokens_cache_adjusted: Option<u64>,
    pub call_count: u32,
    pub truncated: bool,
    pub ticks_run: Option<u32>,
    pub stabilized: Option<bool>,
}

/// The integer statistics of a group of runs.
#[derive(Debug, Clone, Copy, PartialEq, Eq)]
pub struct GroupStats {
    pub n: usize,
    pub parse_ok: usize,
    pub wall_median: u64,
    pub wall_min: u64,
    pub wall_max: u64,
    pub sum_call_median: u64,
    /// Median of the known gross totals (none if no run knows it).
    pub gross_median: Option<u64>,
    /// Median of the known cache-adjusted totals (none if no run knows it).
    pub cache_adjusted_median: Option<u64>,
    pub calls_median: u64,
    pub truncated: usize,
    pub stabilized: usize,
    /// Smallest and largest known tick count (0 when none is known).
    pub ticks_min: u32,
    pub ticks_max: u32,
}

/// A run belongs to the group of a condition, and, when `ticks` is given,
/// of runs that ran exactly that many ticks.
pub open spec fn in_group(r: RunFigures, condition: Seq<char>, ticks: Option<u32>) -> bool {
    r.condition@ == condition && match ticks {
        Some(t) => r.ticks_run == Some(t),
        None => true,
    }
}

/// The runs of a group, in record order.
pub open spec fn members(rs: Seq<RunFigures>, condition: Seq<char>, ticks: Option<u32>) -> Seq<RunFigures>
    decreases rs.len(),
{
    if rs.len() == 0 {
        Seq::empty()
    } else if in_group(rs.last(), condition, ticks) {
        members(rs.drop_last(), condition, ticks).push(rs.last())
    } else {
        members(rs.drop_last(), condition, ticks)
    }
}

/// The values that are known, in order.
pub open spec fn known(v: Seq<Option<u64>>) -> Seq<u64>
    decreases v.len(),
{
    if v.len() == 0 {
        Seq::empty()
    } else {
        match v.last() {
            Some(x) => known(v.drop_last()).push(x),
            None => known(v.drop_last()),
        }
    }
}

/// The smallest value (0 for none).
pub open spec fn min_of(v: Seq<u64>) -> u64
    decreases v.len(),
{
    if v.len() == 0 {
        0
    } else if v.len() == 1 || v.last() <= min_of(v.drop_last()) {
        v.last()
    } else {
        min_of(v.drop_last())
    }
}

/// The largest value (0 for none).
pub open spec fn max_of(v: Seq<u64>) -> u64
    decreases v.len(),
{
    if v.len() == 0 {
        0
    } else if v.last() >= max_of(v.drop_last()) {
        v.last()
    } else {
        max_of(v.drop_last())
    }
}

/// How many runs satisfy a flag.
pub open spec fn count_where(rs: Seq<RunFigures>, f: spec_fn(RunFigures) -> bool) -> nat
    decreases rs.len(),
{
    if rs.len() == 0 {
        0
    } else {
        count_where(rs.drop_last(), f) + if f(rs.last()) { 1nat } else { 0nat }
    }
}

/// The statistics of a group's runs.
pub open spec fn stats_of(g: Seq<RunFigures>) -> GroupStats {
    let walls = g.map_values(|r: RunFigures| r.wall_latency_ms);
    let gross = known(g.map_values(|r: RunFigures| r.total_tokens_gross));
    let cadj = known(g.map_values(|r: RunFigures| r.total_tokens_cache_adjusted));
    let ticks = known(g.map_values(|r: RunFigures| match r.ticks_run {
        Some(t) => Some(t as u64),
        None => None,
    }));
    GroupStats {
        n: g.len() as usize,
        parse_ok: count_where(g, |r: RunFigures| r.parse_ok) as usize,
        wall_median: median_of(walls),
        wall_min: min_of(walls),
        wall_max: max_of(walls),
        sum_call_median: median_of(g.map_values(|r: RunFigures| r.sum_call_latency_ms)),
        gross_median: if gross.len() == 0 { None } else { Some(median_of(gross)) },
        cache_adjusted_median: if cadj.len() == 0 { None } else { Some(median_of(cadj)) },
        calls_median: median_of(g.map_values(|r: RunFigures| r.call_count as u64)),
        truncated: count_where(g, |r: RunFigures| r.truncated) as usize,
        stabilized: count_where(g, |r: RunFigures| r.stabilized == Some(true)) as usize,
        ticks_min: min_of(ticks) as u32,
        ticks_max: max_of(ticks) as u32,
    }
}

proof fn lemma_min_max_bounds(v: Seq<u64>, bound: u64)
    requires
        forall|k: int| 0 <= k < v.len() ==> v[k] <= bound,
    ensures
        min_of(v) <= bound,
        max_of(v) <= bound,
    decreases v.len(),
{
    if v.len() > 0 {
        lemma_min_max_bounds(v.drop_last(), bound);
        assert(v[v.len() - 1] == v.last());
    }
}

/// The statistics of the runs of a condition, optionally only those that
/// ran exactly `ticks` ticks.
pub fn group_stats(records: &Vec<RunFigures>, condition: &str, ticks: Option<u32>) -> (s: GroupStats)
    ensures
        s == stats_of(members(records@, condition@, ticks)),
{
    let ghost rs = records@;
    let mut walls: Vec<u64> = Vec::new();
    let mut sums: Vec<u64> = Vec::new();
    let mut calls: Vec<u64> = Vec::new();
    let mut gross: Vec<u64> = Vec::new();
    let mut cadj: Vec<u64> = Vec::new();
    let mut tick_vals: Vec<u64> = Vec::new();
    let mut n: usize = 0;
    let mut ok: usize = 0;
    let mut trunc: usize = 0;
    let mut stab: usize = 0;
    let mut wmin: u64 = 0;
    let mut wmax: u64 = 0;
    let mut tmin: u64 = 0;
    let mut tmax: u64 = 0;
    let mut j: usize = 0;
    while j < records.len()
        invariant
            0 <= j <= records@.len(),
            rs == records@,
            ({
                let g = members(rs.take(j as int), condition@, ticks);
                &&& n == g.len()
                &&& n <= j
                &&& walls@ == g.map_values(|r: RunFigures| r.wall_latency_ms)
                &&& sums@ == g.map_values(|r: RunFigures| r.sum_call_latency_ms)
                &&& calls@ == g.map_values(|r: RunFigures| r.call_count as u64)
                &&& gross@ == known(g.map_values(|r: RunFigures| r.total_tokens_gross))
                &&& cadj@ == known(g.map_values(|r: RunFigures| r.total_tokens_cache_adjusted))
                &&& tick_vals@ == known(g.map_values(|r: RunFigures| match r.ticks_run {
                    Some(t) => Some(t as u64),
                    None => None,
                }))
                &&& ok == count_where(g, |r: RunFigures| r.parse_ok) && ok <= n
                &&& trunc == count_where(g, |r: RunFigures| r.truncated) && trunc <= n
                &&& stab == count_where(g, |r: RunFigures| r.stabilized == Some(true)) && stab <= n
                &&& wmin == min_of(walls@) && wmax == max_of(walls@)
                &&& tmin == min_of(tick_vals@) && tmax == max_of(tick_vals@)
                &&& forall|k: int| 0 <= k < tick_vals@.len() ==> tick_vals@[k] <= u32::MAX
            }),
        decreases records@.len() - j,
    {
        let r = &records[j];
        let ghost g0 = members(rs.take(j as int), condition@, ticks);
        assert(rs.take(j + 1).drop_last() =~= rs.take(j as int));
        assert(rs.take(j + 1).last() == rs[j as int]);
        let member = crate::text::str_eq(r.condition.as_str(), condition) && match ticks {
            Some(t) => match r.ticks_run {
                Some(x) => x == t,
                None => false,
            },
            None => true,
        };
        if member {
            let ghost g1 = g0.push(*r);
            assert(members(rs.take(j + 1), condition@, ticks) == g1);
            let ghost (w0, s0, c0, gr0, ca0, t0) = (walls@, sums@, calls@, gross@, cadj@, tick_vals@);
            walls.push(r.wall_latency_ms);
            sums.push(r.sum_call_latency_ms);
            calls.push(r.call_count as u64);
            match r.total_tokens_gross {
                Some(x) => gross.push(x),
                None => {},
            }
            match r.total_tokens_cache_adjusted {
                Some(x) => cadj.push(x),
                None => {},
            }
            match r.ticks_run {
                Some(t) => {
                    let first = tick_vals.len() == 0;
                    tick_vals.push(t as u64);
                    if first || (t as u64) <= tmin {
                        tmin = t as u64;
                    }
                    if (t as u64) >= tmax {
                        tmax = t as u64;
                    }
                },
                None => {},
            }
            if r.parse_ok {
                ok = ok + 1;
            }
            if r.truncated {
                trunc = trunc + 1;
            }
            match r.stabilized {
                Some(true) => {
                    stab = stab + 1;
                },
                _ => {},
            }
            if n == 0 || r.wall_latency_ms <= wmin {
                wmin = r.wall_latency_ms;
            }
            if r.wall_latency_ms >= wmax {
                wmax = r.wall_latency_ms;
            }
            n = n + 1;
            proof {
                assert(walls@ =~= g1.map_values(|r: RunFigures| r.wall_latency_ms)) by {
                    assert(g1.map_values(|r: RunFigures| r.wall_latency_ms) =~= g0.map_values(|r: RunFigures| r.wall_latency_ms).push(r.wall_latency_ms));
                }
                assert(sums@ =~= g1.map_values(|r: RunFigures| r.sum_call_latency_ms)) by {
                    assert(g1.map_values(|r: RunFigures| r.sum_call_latency_ms) =~= g0.map_values(|r: RunFigures| r.sum_call_latency_ms).push(r.sum_call_latency_ms));
                }
                assert(calls@ =~= g1.map_values(|r: RunFigures| r.call_count as u64)) by {
                    assert(g1.map_values(|r: RunFigures| r.call_count as u64) =~= g0.map_values(|r: RunFigures| r.call_count as u64).push(r.call_count as u64));
                }
                let gm = g1.map_values(|r: RunFigures| r.total_tokens_gross);
                assert(gm.drop_last() =~= g0.map_values(|r: RunFigures| r.total_tokens_gross));
                assert(gross@ =~= known(gm));
                let cm = g1.map_values(|r: RunFigures| r.total_tokens_cache_adjusted);
                assert(cm.drop_last() =~= g0.map_values(|r: RunFigures| r.total_tokens_cache_adjusted));
                assert(cadj@ =~= known(cm));
                let tm = g1.map_values(|r: RunFigures| match r.ticks_run {
                    Some(t) => Some(t as u64),
                    None => None,
                });
                assert(tm.drop_last() =~= g0.map_values(|r: RunFigures| match r.ticks_run {
                    Some(t) => Some(t as u64),
                    None => None,
                }));
                assert(tick_vals@ =~= known(tm));
                assert(g1.drop_last() =~= g0);
                assert(walls@.drop_last() =~= w0);
                if w0.len() == 0 {
                    assert(walls@.len() == 1);
                }
                if tick_vals@.len() > t0.len() {
                    assert(tick_vals@.drop_last() =~= t0);
                } else {
                    assert(tick_vals@ =~= t0);
                }
            }
        } else {
            assert(members(rs.take(j + 1), condition@, ticks) == g0);
        }
        j = j + 1;
    }
    assert(rs.take(j as int) =~= rs);
    proof {
        lemma_min_max_bounds(tick_vals@, u32::MAX as u64);
    }
    GroupStats {
        n,
        parse_ok: ok,
        wall_median: median(&walls),
        wall_min: wmin,
        wall_max: wmax,
        sum_call_median: median(&sums),
        gross_median: median_opt(&gross),
        cache_adjusted_median: median_opt(&cadj),
        calls_median: median(&calls),
        truncated: trunc,
        stabilized: stab,
        ticks_min: tmin as u32,
        ticks_max: tmax as u32,
    }
}

/// The known tick counts of a condition's runs.
pub open spec fn group_ticks(rs: Seq<RunFigures>, condition: Seq<char>) -> Seq<u64> {
    known(members(rs, condition, None).map_values(|r: RunFigures| match r.ticks_run {
        Some(t) => Some(t as u64),
        None => None,
    }))
}

/// The number of runs whose output failed to parse or validate.
pub open spec fn parse_failures(rs: Seq<RunFigures>) -> nat
    decreases rs.len(),
{
    if rs.len() == 0 {
        0
    } else {
        parse_failures(rs.drop_last()) + if rs.last().parse_ok { 0nat } else { 1nat }
    }
}

/// Whether the lateral mechanism went unmeasured: there are adaptive-mesh
/// runs, yet none reached a second tick.
pub open spec fn mechanism_unmeasured(rs: Seq<RunFigures>) -> bool {
    let g = stats_of(members(rs, "mesh_adaptive"@, None));
    g.n > 0 && g.ticks_max <= 1
}

/// The summary's warnings: whether the lateral mechanism went unmeasured,
/// and how many runs failed to parse.
pub fn summary_flags(records: &Vec<RunFigures>) -> (r: (bool, usize))
    ensures
        r.0 == mechanism_unmeasured(records@),
        r.1 == parse_failures(records@),
{
    let g = group_stats(records, "mesh_adaptive", None);
    let mut fails: usize = 0;
    let mut j: usize = 0;
    while j < records.len()
        invariant
            0 <= j <= records@.len(),
            fails == parse_failures(records@.take(j as int)),
            fails <= j,
        decreases records@.len() - j,
    {
        assert(records@.take(j + 1).drop_last() =~= records@.take(j as int));
        if !records[j].parse_ok {
            fails = fails + 1;
        }
        j = j + 1;
    }
    assert(records@.take(j as int) =~= records@);
    (g.n > 0 && g.ticks_max <= 1, fails)
}

/// The distinct tick counts a condition's runs reached, ascending (the
/// buckets the summary stratifies by).
pub fn tick_buckets(records: &Vec<RunFigures>, condition: &str) -> (b: Vec<u32>)
    ensures
        forall|i: int, j: int| 0 <= i < j < b@.len() ==> b@[i] < b@[j],
        forall|i: int| 0 <= i < b@.len() ==> group_ticks(records@, condition@).contains(#[trigger] b@[i] as u64),
        forall|t: u64| group_ticks(records@, condition@).contains(t) ==> t <= u32::MAX && b@.contains(t as u32),
{
    broadcast use vstd::seq_lib::group_to_multiset_ensures;
    let ghost rs = records@;
    let mut ticks: Vec<u64> = Vec::new();
    let mut j: usize = 0;
    while j < records.len()
        invariant
            0 <= j <= records@.len(),
            rs == records@,
            ticks@ == known(members(rs.take(j as int), condition@, None).map_values(|r: RunFigures| match r.ticks_run {
                Some(t) => Some(t as u64),
                None => None,
            })),
            forall|k: int| 0 <= k < ticks@.len() ==> ticks@[k] <= u32::MAX,
        decreases records@.len() - j,
    {
        let r = &records[j];
        let ghost g0 = members(rs.take(j as int), condition@, None);
        assert(rs.take(j + 1).drop_last() =~= rs.take(j as int));
        assert(rs.take(j + 1).last() == rs[j as int]);
        if crate::text::str_eq(r.condition.as_str(), condition) {
            let ghost g1 = g0.push(*r);
            assert(members(rs.take(j + 1), condition@, None) == g1);
            let ghost t0 = ticks@;
            match r.ticks_run {
                Some(t) => ticks.push(t as u64),
                None => {},
            }
            proof {
                let tm = g1.map_values(|r: RunFigures| match r.ticks_run {
                    Some(t) => Some(t as u64),
                    None => None,
                });
                assert(tm.drop_last() =~= g0.map_values(|r: RunFigures| match r.ticks_run {
                    Some(t) => Some(t as u64),
                    None => None,
                }));
                assert(ticks@ =~= known(tm));
            }
        } else {
            assert(members(rs.take(j + 1), condition@, None) == g0);
        }
        j = j + 1;
    }
    assert(rs.take(j as int) =~= rs);
    let sorted = sorted_copy(&ticks);
    let ghost all = ticks@;
    proof {
        lemma_count_le_total();
        all.lemma_sort_by_ensures(count_le());
    }
    let mut b: Vec<u32> = Vec::new();
    let mut k: usize = 0;
    while k < sorted.len()
        invariant
            0 <= k <= sorted@.len(),
            sorted@ == all.sort_by(count_le()),
            sorted_by(sorted@, count_le()),
            all.to_multiset() =~= sorted@.to_multiset(),
            forall|x: int| 0 <= x < all.len() ==> all[x] <= u32::MAX,
            forall|i: int, l: int| 0 <= i < l < b@.len() ==> b@[i] < b@[l],
            forall|i: int| 0 <= i < b@.len() ==> all.contains(#[trigger] b@[i] as u64),
            forall|x: int| 0 <= x < k ==> b@.contains(#[trigger] sorted@[x] as u32),
            k > 0 ==> b@.len() > 0 && b@.last() as u64 == sorted@[k - 1],
            k == 0 ==> b@.len() == 0,
        decreases sorted@.len() - k,
    {
        let x = sorted[k];
        proof {
            assert(sorted@[k as int] == x);
            assert(sorted@.contains(x));
            vstd::seq_lib::to_multiset_contains(sorted@, x);
            assert(all.to_multiset().count(x) == sorted@.to_multiset().count(x));
            vstd::seq_lib::to_multiset_contains(all, x);
            assert(all.contains(x));
            let w = choose|w: int| 0 <= w < all.len() && all[w] == x;
            assert(x <= u32::MAX);
        }
        if k == 0 || b[b.len() - 1] as u64 != x {
            proof {
                if k > 0 {
                    assert(count_le()(sorted@[k - 1], sorted@[k as int]));
                }
            }
            let ghost b0 = b@;
            b.push(x as u32);
            proof {
                assert forall|i: int, l: int| 0 <= i < l < b@.len() implies b@[i] < b@[l] by {
                    if l == b@.len() - 1 && k > 0 {
                        assert(b0.last() as u64 == sorted@[k - 1]);
                        assert(sorted@[k - 1] <= x);
                        if i < b0.len() - 1 {
                            assert(b0[i] < b0[b0.len() - 1]);
                        }
                    } else if l < b@.len() - 1 {
                        assert(b@[i] == b0[i] && b@[l] == b0[l]);
                    }
                }
                assert forall|y: int| 0 <= y < k + 1 implies b@.contains(#[trigger] sorted@[y] as u32) by {
                    if y == k {
                        assert(b@[b@.len() - 1] == x as u32);
                    } else {
                        let i = choose|i: int| 0 <= i < b0.len() && b0[i] == sorted@[y] as u32;
                        assert(b@[i] == b0[i]);
                    }
                }
            }
        } else {
            proof {
                assert(b@[b@.len() - 1] == x as u32);
            }
        }
        k = k + 1;
    }
    proof {
        assert forall|t: u64| group_ticks(records@, condition@).contains(t) implies t <= u32::MAX && b@.contains(t as u32) by {
            let w = choose|w: int| 0 <= w < all.len() && all[w] == t;
            vstd::seq_lib::to_multiset_contains(all, t);
            vstd::seq_lib::to_multiset_contains(sorted@, t);
            assert(sorted@.contains(t));
            let y = choose|y: int| 0 <= y < sorted@.len() && sorted@[y] == t;
            assert(b@.contains(sorted@[y] as u32));
        }
    }
    b
}

} // verus!
