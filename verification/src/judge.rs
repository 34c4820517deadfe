//! The judge pass over benchmark results: which pairs are judged or
//! excluded, the perturbation metric between a column's tick-1 and tick-2
//! predictions, the echo screen against injected neighbor text, and the
//! reduction of swapped-order judge verdicts to one outcome.
use vstd::prelude::*;

use crate::order::{item_before, lemma_full_cover, ranked_prefix, select_ranked, seq_lt};
use crate::text::{
    chars_of, copy_string, extract_json_block, json_block, own_str, push_str, str_eq, string_of, trim_chars, trim_seq,
};

verus! {

// ---------------------------------------------------------------------------
// Edit distance
// ---------------------------------------------------------------------------

/// The cost of substituting `x` by `y`.
pub open spec fn subst_cost(x: char, y: char) -> nat {
    if x == y { 0 } else { 1 }
}

/// The smallest of three numbers.
pub open spec fn min3(a: nat, b: nat, c: nat) -> nat {
    if a <= b && a <= c { a } else if b <= c { b } else { c }
}

/// The Levenshtein distance: the fewest single-character insertions,
/// deletions and substitutions turning `a` into `b`.
pub open spec fn edit_distance(a: Seq<char>, b: Seq<char>) -> nat
    decreases a.len() + b.len(),
{
    if a.len() == 0 {
        b.len()
    } else if b.len() == 0 {
        a.len()
    } else {
        min3(
            edit_distance(a.drop_last(), b) + 1,
            edit_distance(a, b.drop_last()) + 1,
            edit_distance(a.drop_last(), b.drop_last()) + subst_cost(a.last(), b.last()),
        )
    }
}

proof fn lemma_edit_distance_bound(a: Seq<char>, b: Seq<char>)
    ensures
        edit_distance(a, b) <= a.len() + b.len(),
    decreases a.len() + b.len(),
{
    if a.len() > 0 && b.len() > 0 {
        lemma_edit_distance_bound(a.drop_last(), b);
    }
}

/// The Levenshtein distance between two strings, in characters.
pub fn levenshtein(a: &str, b: &str) -> (d: usize)
    requires
        a@.len() + b@.len() < usize::MAX,
    ensures
        d == edit_distance(a@, b@),
{
    let av = chars_of(a);
    let bv = chars_of(b);
    let n = av.len();
    let m = bv.len();
    let mut prev: Vec<usize> = Vec::new();
    let mut j: usize = 0;
    while j <= m
        invariant
            m == bv@.len(),
            bv@ == b@,
            a@.len() + b@.len() < usize::MAX,
            0 <= j <= m + 1,
            prev@.len() == j,
            forall|k: int| 0 <= k < j ==> prev@[k] == edit_distance(av@.take(0), bv@.take(k)),
        decreases m + 1 - j,
    {
        proof {
            assert(av@.take(0).len() == 0);
        }
        prev.push(j);
        j = j + 1;
    }
    let mut curr: Vec<usize> = Vec::new();
    let mut j: usize = 0;
    while j <= m
        invariant
            0 <= j <= m + 1,
            curr@.len() == j,
            m < usize::MAX,
        decreases m + 1 - j,
    {
        curr.push(0);
        j = j + 1;
    }
    let mut i: usize = 1;
    while i <= n
        invariant
            n == av@.len(),
            m == bv@.len(),
            av@ == a@,
            bv@ == b@,
            n + m < usize::MAX,
            1 <= i <= n + 1,
            prev@.len() == m + 1,
            curr@.len() == m + 1,
            forall|k: int| 0 <= k <= m ==> prev@[k] == edit_distance(av@.take(i - 1), bv@.take(k)),
        decreases n + 1 - i,
    {
        let ghost ai = av@.take(i as int);
        let ghost ap = av@.take(i - 1);
        proof {
            assert(ai.drop_last() =~= ap);
            assert(ai.last() == av@[i - 1]);
            assert(bv@.take(0).len() == 0);
        }
        curr.set(0, i);
        let mut j: usize = 1;
        while j <= m
            invariant
                n == av@.len(),
                m == bv@.len(),
                n + m < usize::MAX,
                1 <= i <= n,
                1 <= j <= m + 1,
                ai == av@.take(i as int),
                ap == av@.take(i - 1),
                ai.drop_last() == ap,
                ai.last() == av@[i - 1],
                prev@.len() == m + 1,
                curr@.len() == m + 1,
                forall|k: int| 0 <= k <= m ==> prev@[k] == edit_distance(ap, bv@.take(k)),
                forall|k: int| 0 <= k < j ==> curr@[k] == edit_distance(ai, bv@.take(k)),
            decreases m + 1 - j,
        {
            let ghost bj = bv@.take(j as int);
            proof {
                assert(bj.drop_last() =~= bv@.take(j - 1));
                assert(bj.last() == bv@[j - 1]);
                lemma_edit_distance_bound(ap, bj);
                lemma_edit_distance_bound(ai, bv@.take(j - 1));
                lemma_edit_distance_bound(ap, bv@.take(j - 1));
            }
            let cost: usize = if av[i - 1] == bv[j - 1] { 0 } else { 1 };
            let del = prev[j] + 1;
            let ins = curr[j - 1] + 1;
            let sub = prev[j - 1] + cost;
            let best = if del <= ins && del <= sub {
                del
            } else if ins <= sub {
                ins
            } else {
                sub
            };
            curr.set(j, best);
            j = j + 1;
        }
        let mut tmp: Vec<usize> = Vec::new();
        std::mem::swap(&mut prev, &mut tmp);
        std::mem::swap(&mut curr, &mut prev);
        curr = tmp;
        i = i + 1;
    }
    assert(av@.take(n as int) =~= av@);
    assert(bv@.take(m as int) =~= bv@);
    prev[m]
}

/// The edit distance is zero exactly when the texts are the same, so a
/// non-zero perturbation means the column's prediction moved.
pub proof fn law_edit_distance_zero_iff_equal(a: Seq<char>, b: Seq<char>)
    ensures
        (edit_distance(a, b) == 0) == (a == b),
    decreases a.len() + b.len(),
{
    if a.len() > 0 && b.len() > 0 {
        law_edit_distance_zero_iff_equal(a.drop_last(), b.drop_last());
        if a == b {
            assert(a.drop_last() == b.drop_last());
        }
        if edit_distance(a, b) == 0 {
            assert(edit_distance(a.drop_last(), b.drop_last()) == 0);
            assert(a.last() == b.last());
            assert(a =~= a.drop_last().push(a.last()));
            assert(b =~= b.drop_last().push(b.last()));
        }
    } else if a.len() == 0 && b.len() > 0 {
        assert(a != b);
    } else if a.len() > 0 && b.len() == 0 {
        assert(a != b);
    } else {
        assert(a =~= b);
    }
}

/// The edit distance never exceeds the longer text's length, so dividing
/// it by that length gives a value in `[0, 1]`.
pub proof fn law_edit_distance_at_most_longer(a: Seq<char>, b: Seq<char>)
    ensures
        edit_distance(a, b) <= if a.len() >= b.len() { a.len() } else { b.len() },
    decreases a.len() + b.len(),
{
    if a.len() > 0 && b.len() > 0 {
        law_edit_distance_at_most_longer(a.drop_last(), b.drop_last());
    }
}

// ---------------------------------------------------------------------------
// The default topology's receivers and sources
// ---------------------------------------------------------------------------

/// The columns that receive lateral context in the reference topology.
pub const LATERAL_RECEIVERS: [&'static str; 3] = ["CC_PHYSICS_01", "CC_MATH_01", "CC_CODE_01"];

/// The reference topology's sink: it hears nothing, so at temperature 0
/// its tick-1 and tick-2 outputs must agree.
pub const DETERMINISM_COLUMN: &'static str = "CC_PSYCH_01";

/// The reference topology's listeners with the sources each listens to.
pub open spec fn listener_table() -> Seq<(Seq<char>, Seq<Seq<char>>)> {
    seq![
        ("CC_PHYSICS_01"@, seq!["CC_MATH_01"@]),
        ("CC_MATH_01"@, seq!["CC_PHYSICS_01"@, "CC_CODE_01"@]),
        ("CC_CODE_01"@, seq!["CC_PSYCH_01"@]),
    ]
}

/// The views of a listener table.
pub open spec fn table_view(t: Seq<(&'static str, Vec<&'static str>)>) -> Seq<(Seq<char>, Seq<Seq<char>>)> {
    t.map_values(|e: (&'static str, Vec<&'static str>)| (e.0@, e.1@.map_values(|s: &'static str| s@)))
}

/// The reference topology's listeners with their sources.
pub fn listener_sources() -> (t: Vec<(&'static str, Vec<&'static str>)>)
    ensures
        table_view(t@) == listener_table(),
{
    let mut t: Vec<(&'static str, Vec<&'static str>)> = Vec::new();
    let mut a: Vec<&'static str> = Vec::new();
    a.push("CC_MATH_01");
    let mut b: Vec<&'static str> = Vec::new();
    b.push("CC_PHYSICS_01");
    b.push("CC_CODE_01");
    let mut c: Vec<&'static str> = Vec::new();
    c.push("CC_PSYCH_01");
    t.push(("CC_PHYSICS_01", a));
    t.push(("CC_MATH_01", b));
    t.push(("CC_CODE_01", c));
    assert(table_view(t@)[0].1 =~= listener_table()[0].1);
    assert(table_view(t@)[1].1 =~= listener_table()[1].1);
    assert(table_view(t@)[2].1 =~= listener_table()[2].1);
    assert(table_view(t@) =~= listener_table());
    t
}

/// The sources of `receiver` in the reference topology: those of its first
/// entry, or none.
pub open spec fn sources_of_receiver(receiver: Seq<char>) -> Seq<Seq<char>> {
    if exists|i: int| 0 <= i < 3 && listener_table()[i].0 == receiver {
        listener_table()[choose|i: int|
            0 <= i < 3 && listener_table()[i].0 == receiver && forall|j: int| 0 <= j < i ==> listener_table()[j].0 != receiver].1
    } else {
        Seq::empty()
    }
}

/// The sources a receiver listens to in the reference topology, or none.
pub fn sources_for(receiver: &str) -> (r: Vec<&'static str>)
    ensures
        r@.map_values(|s: &'static str| s@) == sources_of_receiver(receiver@),
{
    let table = listener_sources();
    assert(table_view(table@).len() == table@.len());
    let mut i: usize = 0;
    while i < table.len()
        invariant
            table_view(table@) == listener_table(),
            table@.len() == 3,
            0 <= i <= 3,
            forall|j: int| 0 <= j < i ==> listener_table()[j].0 != receiver@,
        decreases 3 - i,
    {
        assert(table_view(table@)[i as int].0 == table@[i as int].0@);
        if str_eq(table[i].0, receiver) {
            let mut r: Vec<&'static str> = Vec::new();
            let mut k: usize = 0;
            let src = &table[i].1;
            assert(table_view(table@)[i as int].1 == src@.map_values(|s: &'static str| s@));
            while k < src.len()
                invariant
                    0 <= k <= src@.len(),
                    r@.map_values(|s: &'static str| s@) == src@.map_values(|s: &'static str| s@).take(k as int),
                decreases src@.len() - k,
            {
                let ghost before = r@;
                r.push(src[k]);
                assert(r@.map_values(|s: &'static str| s@) =~= before.map_values(|s: &'static str| s@).push(src@[k as int]@));
                assert(src@.map_values(|s: &'static str| s@).take(k + 1) =~= src@.map_values(|s: &'static str| s@).take(
                    k as int,
                ).push(src@[k as int]@));
                k = k + 1;
            }
            assert(src@.map_values(|s: &'static str| s@).take(k as int) =~= src@.map_values(|s: &'static str| s@));
            assert(listener_table()[i as int].0 == receiver@);
            let ghost w = choose|w: int|
                0 <= w < 3 && listener_table()[w].0 == receiver@ && forall|j: int| 0 <= j < w ==> listener_table()[j].0 != receiver@;
            assert(w == i) by {
                if w < i {
                } else if w > i {
                    assert(listener_table()[i as int].0 == receiver@);
                }
            }
            return r;
        }
        i = i + 1;
    }
    Vec::new()
}

/// The frame and remit the judge is told a column reasons in.
pub open spec fn remit_of(column_id: Seq<char>) -> (Seq<char>, Seq<char>) {
    if column_id == "CC_PHYSICS_01"@ {
        ("empirical"@, "forces, energy, thermal/mechanical constraints; isolated variables and empirical observations"@)
    } else if column_id == "CC_MATH_01"@ {
        ("mathematics"@, "quantities, rates, ratios, complexity, formal relations; axiomatic assertions and deductive synthesis"@)
    } else if column_id == "CC_CODE_01"@ {
        ("coding"@, "state, retries, latency, control flow, algorithmic/software failure modes; state variables and algorithmic analysis"@)
    } else {
        ("unknown"@, "the assigned reference frame"@)
    }
}

/// The frame and remit of a column, for the judge prompt.
pub fn sphere_remit(column_id: &str) -> (r: (&'static str, &'static str))
    ensures
        (r.0@, r.1@) == remit_of(column_id@),
{
    if str_eq(column_id, "CC_PHYSICS_01") {
        ("empirical", "forces, energy, thermal/mechanical constraints; isolated variables and empirical observations")
    } else if str_eq(column_id, "CC_MATH_01") {
        ("mathematics", "quantities, rates, ratios, complexity, formal relations; axiomatic assertions and deductive synthesis")
    } else if str_eq(column_id, "CC_CODE_01") {
        ("coding", "state, retries, latency, control flow, algorithmic/software failure modes; state variables and algorithmic analysis")
    } else {
        ("unknown", "the assigned reference frame")
    }
}

/// The judge prompt's opening, up to the column id.
pub const JUDGE_OPENING: &'static str = "You are an independent benchmark judge evaluating two BLINDED drafts of the same \
reference-frame analysis. The labels \"Answer A\" and \"Answer B\" are arbitrary; do not infer \
which is which or anything from order. These are two drafts of an analysis for the SAME task.\n\n\
Reference frame being judged:\n- column: ";

/// The judge rules and rubric, up to the frame named in the grounding axis.
pub const JUDGE_RUBRIC: &'static str = "\n\n\
Each draft is a JSON object with reference_frame_coordinates, prediction, confidence, and \
sphere-specific domain fields.\n\n\
Judging rules (STRICT):\n\
- Do NOT reward verbosity, length, repetition, formatting, or JSON labels.\n\
- Do NOT reward an answer for having more words or more fields.\n\
- A concise answer can beat a longer one. Prefer high-signal analytical content.\n\
- Penalize hallucinated facts, unsupported causal claims, contradictions of the task, and filler.\n\
- Judge ONLY the content shown; do not speculate about which draft had extra context.\n\n\
Score each answer 1-5 on these FOUR dimensions (only):\n\
1. factual_correctness: 1 = contradicts/invents important facts; 5 = preserves stated facts/numbers, no unsupported claims.\n\
2. reasoning_quality: 1 = incoherent, restatement-only, or causally invalid; 5 = clear plausible causal/logical chain.\n\
3. reference_frame_grounding: 1 = generic prose outside the assigned frame; 5 = strongly grounded in the ";

/// The rest of the rubric, up to the first answer.
pub const JUDGE_ANSWER_A: &'static str = " frame.\n\
4. concision_signal: 1 = verbose filler; 5 = concise, high-signal, no unnecessary verbosity.\n\n\
Answer A:\n";

/// The judge prompt's closing: the required verdict shape.
pub const JUDGE_CLOSING: &'static str = "\n\n\
Return ONLY a valid JSON object with exactly this shape:\n\
{\"winner\":\"A\"|\"B\"|\"tie\",\"scores\":{\"A\":{\"factual_correctness\":N,\"reasoning_quality\":N,\"reference_frame_grounding\":N,\"concision_signal\":N},\"B\":{...same...}},\"rationale\":\"1-3 sentences\"}";

/// The blind pairwise judge prompt for a column's two drafts, `a` and `b`
/// (their JSON texts), framed by the column's sphere and remit.
pub open spec fn judge_prompt_text(column_id: Seq<char>, a: Seq<char>, b: Seq<char>) -> Seq<char> {
    let (sphere, remit) = remit_of(column_id);
    JUDGE_OPENING@ + column_id + "\n- frame: "@ + sphere + "\n- remit: "@ + remit + JUDGE_RUBRIC@ + sphere
        + JUDGE_ANSWER_A@ + a + "\n\nAnswer B:\n"@ + b + JUDGE_CLOSING@
}

/// Build the blind pairwise judge prompt for a column's two drafts, given
/// as their JSON texts.
pub fn judge_prompt(column_id: &str, a: &str, b: &str) -> (p: String)
    ensures
        p@ == judge_prompt_text(column_id@, a@, b@),
{
    let (sphere, remit) = sphere_remit(column_id);
    let mut v: Vec<char> = Vec::new();
    push_str(&mut v, JUDGE_OPENING);
    push_str(&mut v, column_id);
    push_str(&mut v, "\n- frame: ");
    push_str(&mut v, sphere);
    push_str(&mut v, "\n- remit: ");
    push_str(&mut v, remit);
    push_str(&mut v, JUDGE_RUBRIC);
    push_str(&mut v, sphere);
    push_str(&mut v, JUDGE_ANSWER_A);
    push_str(&mut v, a);
    push_str(&mut v, "\n\nAnswer B:\n");
    push_str(&mut v, b);
    push_str(&mut v, JUDGE_CLOSING);
    string_of(&v)
}

// ---------------------------------------------------------------------------
// Which runs and pairs are analyzed
// ---------------------------------------------------------------------------

/// Whether a benchmark run is analyzed: a parsed, untruncated adaptive-mesh
/// run that recorded at least two tick snapshots and ran at least two
/// ticks.
pub fn run_is_analyzed(condition: &str, parse_ok: bool, truncated: bool, ticks_run: Option<u32>, snapshots: Option<usize>) -> (r: bool)
    ensures
        r == (condition@ == "mesh_adaptive"@ && parse_ok && !truncated && snapshots is Some
            && match ticks_run {
                Some(t) => t >= 2,
                None => false,
            } && snapshots->0 >= 2),
{
    if !str_eq(condition, "mesh_adaptive") || !parse_ok || truncated {
        return false;
    }
    let n = match snapshots {
        Some(n) => n,
        None => {
            return false;
        },
    };
    let t = match ticks_run {
        Some(t) => t,
        None => 0,
    };
    t >= 2 && n >= 2
}

/// Why a pair is excluded from scoring, if it is: a failed determinism
/// gate first, then a truncated tick 2, then an echoed neighbor.
pub open spec fn exclusion(determinism_ok: bool, truncated: bool, echoed: bool) -> Option<Seq<char>> {
    if !determinism_ok {
        Some("determinism_failed"@)
    } else if truncated {
        Some("tick2_truncated"@)
    } else if echoed {
        Some("tick2_echoed_neighbor"@)
    } else {
        None
    }
}

/// Why a pair is excluded from scoring, if it is.
pub fn exclusion_reason(determinism_ok: bool, truncated: bool, echoed: bool) -> (r: Option<&'static str>)
    ensures
        match r {
            Some(s) => exclusion(determinism_ok, truncated, echoed) == Some(s@),
            None => exclusion(determinism_ok, truncated, echoed) is None,
        },
{
    if !determinism_ok {
        Some("determinism_failed")
    } else if truncated {
        Some("tick2_truncated")
    } else if echoed {
        Some("tick2_echoed_neighbor")
    } else {
        None
    }
}

// ---------------------------------------------------------------------------
// Echo screen
// ---------------------------------------------------------------------------

/// The length, in characters, of the windows the echo screen looks for.
pub const ECHO_WINDOW: usize = 40;

/// `needle` occurs in `hay` as a contiguous run.
pub open spec fn occurs_in(needle: Seq<char>, hay: Seq<char>) -> bool {
    exists|i: int| 0 <= i && i + needle.len() <= hay.len() && #[trigger] hay.subrange(i, i + needle.len()) == needle
}

/// Some 40-character window of `src` occurs verbatim in `pred`.
pub open spec fn echoes(pred: Seq<char>, src: Seq<char>) -> bool {
    src.len() >= 40 && exists|i: int| 0 <= i && i + 40 <= src.len() && occurs_in(#[trigger] src.subrange(i, i + 40), pred)
}

fn occurs_at(hay: &Vec<char>, needle: &Vec<char>, at: usize) -> (r: bool)
    requires
        at + needle@.len() <= hay@.len(),
    ensures
        r == (hay@.subrange(at as int, at + needle@.len()) == needle@),
{
    let hl = hay.len();
    let mut k: usize = 0;
    while k < needle.len()
        invariant
            at + needle@.len() <= hay@.len(),
            hl == hay@.len(),
            0 <= k <= needle@.len(),
            forall|t: int| 0 <= t < k ==> hay@[at + t] == needle@[t],
        decreases needle@.len() - k,
    {
        if hay[at + k] != needle[k] {
            assert(hay@.subrange(at as int, at + needle@.len())[k as int] != needle@[k as int]);
            return false;
        }
        k = k + 1;
    }
    assert(hay@.subrange(at as int, at + needle@.len()) =~= needle@);
    true
}

fn occurs(hay: &Vec<char>, needle: &Vec<char>) -> (r: bool)
    ensures
        r == occurs_in(needle@, hay@),
{
    if needle.len() > hay.len() {
        return false;
    }
    if needle.len() == 0 {
        assert(hay@.subrange(0int, 0int + needle@.len()) =~= needle@);
        return true;
    }
    let hl = hay.len();
    let last = hl - needle.len();
    let mut i: usize = 0;
    while i <= last
        invariant
            last + needle@.len() == hay@.len(),
            hl == hay@.len(),
            needle@.len() > 0,
            last < hay@.len(),
            0 <= i <= last + 1,
            forall|t: int| 0 <= t < i ==> #[trigger] hay@.subrange(t, t + needle@.len()) != needle@,
        decreases last + 1 - i,
    {
        if occurs_at(hay, needle, i) {
            return true;
        }
        i = i + 1;
    }
    false
}

/// Whether `pred` contains a 40-character window of `src`.
fn echoes_source(pred: &Vec<char>, src: &Vec<char>) -> (r: bool)
    ensures
        r == echoes(pred@, src@),
{
    if src.len() < ECHO_WINDOW {
        return false;
    }
    let sl = src.len();
    let last = sl - ECHO_WINDOW;
    let mut i: usize = 0;
    while i <= last
        invariant
            last + 40 == src@.len(),
            sl == src@.len(),
            0 <= i <= last + 1,
            forall|t: int| 0 <= t < i ==> !occurs_in(#[trigger] src@.subrange(t, t + 40), pred@),
        decreases last + 1 - i,
    {
        let mut window: Vec<char> = Vec::new();
        let mut k: usize = 0;
        while k < ECHO_WINDOW
            invariant
                last + 40 == src@.len(),
                sl == src@.len(),
                0 <= i <= last,
                0 <= k <= 40,
                window@ == src@.subrange(i as int, i + k),
            decreases 40 - k,
        {
            window.push(src[i + k]);
            k = k + 1;
            assert(window@ =~= src@.subrange(i as int, i + k));
        }
        if occurs(pred, &window) {
            return true;
        }
        i = i + 1;
    }
    false
}

/// The echo screen: whether a receiver's tick-2 prediction (if it has
/// one) contains, verbatim, any 40-character window of a source's tick-1
/// prediction.
pub fn echo_screen_against_sources(prediction: Option<&str>, sources: &Vec<String>) -> (r: bool)
    ensures
        r == match prediction {
            Some(p) => exists|k: int| 0 <= k < sources@.len() && echoes(p@, #[trigger] sources@[k]@),
            None => false,
        },
{
    let p = match prediction {
        Some(p) => p,
        None => {
            return false;
        },
    };
    let pv = chars_of(p);
    let mut k: usize = 0;
    while k < sources.len()
        invariant
            pv@ == p@,
            prediction == Some(p),
            0 <= k <= sources@.len(),
            forall|t: int| 0 <= t < k ==> !echoes(p@, #[trigger] sources@[t]@),
        decreases sources@.len() - k,
    {
        let sv = chars_of(sources[k].as_str());
        if echoes_source(&pv, &sv) {
            assert(echoes(p@, sources@[k as int]@));
            assert(exists|kk: int| 0 <= kk < sources@.len() && echoes(p@, #[trigger] sources@[kk]@));
            return true;
        }
        k = k + 1;
    }
    false
}

// ---------------------------------------------------------------------------
// Verdict text
// ---------------------------------------------------------------------------

/// `s` without the prefix `p`, if it starts with it.
pub open spec fn strip_prefix_seq(s: Seq<char>, p: Seq<char>) -> Seq<char> {
    if p.len() <= s.len() && s.subrange(0, p.len() as int) == p {
        s.subrange(p.len() as int, s.len() as int)
    } else {
        s
    }
}

/// `s` without the suffix `p`, if it ends with it.
pub open spec fn strip_suffix_seq(s: Seq<char>, p: Seq<char>) -> Seq<char> {
    if p.len() <= s.len() && s.subrange(s.len() - p.len(), s.len() as int) == p {
        s.subrange(0, s.len() - p.len())
    } else {
        s
    }
}

/// The JSON text of a judge reply: trimmed, a code-fence opener
/// (```` ```json ```` then ```` ``` ````) and closer removed, trimmed again,
/// and narrowed to its outermost `{ ... }` block where there is one.
pub open spec fn verdict_text(content: Seq<char>) -> Seq<char> {
    let fence = seq!['`', '`', '`'];
    let s = trim_seq(content);
    let s = strip_prefix_seq(s, fence + seq!['j', 's', 'o', 'n']);
    let s = strip_prefix_seq(s, fence);
    let s = strip_suffix_seq(s, fence);
    json_block(trim_seq(s))
}

fn strip_prefix_chars(v: Vec<char>, p: &Vec<char>) -> (r: Vec<char>)
    ensures
        r@ == strip_prefix_seq(v@, p@),
{
    if p.len() > v.len() {
        return v;
    }
    let mut k: usize = 0;
    while k < p.len()
        invariant
            p@.len() <= v@.len(),
            0 <= k <= p@.len(),
            forall|t: int| 0 <= t < k ==> v@[t] == p@[t],
        decreases p@.len() - k,
    {
        if v[k] != p[k] {
            assert(v@.subrange(0, p@.len() as int)[k as int] != p@[k as int]);
            return v;
        }
        k = k + 1;
    }
    assert(v@.subrange(0, p@.len() as int) =~= p@);
    let mut r: Vec<char> = Vec::new();
    let mut i = p.len();
    while i < v.len()
        invariant
            p@.len() <= i <= v@.len(),
            r@ == v@.subrange(p@.len() as int, i as int),
        decreases v@.len() - i,
    {
        r.push(v[i]);
        i = i + 1;
        assert(r@ =~= v@.subrange(p@.len() as int, i as int));
    }
    r
}

fn strip_suffix_chars(v: Vec<char>, p: &Vec<char>) -> (r: Vec<char>)
    ensures
        r@ == strip_suffix_seq(v@, p@),
{
    if p.len() > v.len() {
        return v;
    }
    let vl = v.len();
    let base = vl - p.len();
    let mut k: usize = 0;
    while k < p.len()
        invariant
            base + p@.len() == v@.len(),
            vl == v@.len(),
            0 <= k <= p@.len(),
            forall|t: int| 0 <= t < k ==> v@[base + t] == p@[t],
        decreases p@.len() - k,
    {
        if v[base + k] != p[k] {
            assert(v@.subrange(base as int, v@.len() as int)[k as int] != p@[k as int]);
            return v;
        }
        k = k + 1;
    }
    assert(v@.subrange(base as int, v@.len() as int) =~= p@);
    let mut r: Vec<char> = Vec::new();
    let mut i: usize = 0;
    while i < base
        invariant
            base <= v@.len(),
            0 <= i <= base,
            r@ == v@.subrange(0, i as int),
        decreases base - i,
    {
        r.push(v[i]);
        i = i + 1;
        assert(r@ =~= v@.subrange(0, i as int));
    }
    r
}

/// The JSON text of a judge reply, ready to parse as a verdict.
pub fn verdict_json_text(content: &str) -> (r: String)
    ensures
        r@ == verdict_text(content@),
{
    let fence = chars_of("```");
    let fence_json = chars_of("```json");
    proof {
        reveal_strlit("```");
        reveal_strlit("```json");
        assert(fence@ =~= seq!['`', '`', '`']);
        assert(fence_json@ =~= seq!['`', '`', '`'] + seq!['j', 's', 'o', 'n']);
    }
    let v = chars_of(content);
    let s = trim_chars(&v);
    let s = strip_prefix_chars(s, &fence_json);
    let s = strip_prefix_chars(s, &fence);
    let s = strip_suffix_chars(s, &fence);
    let s = trim_chars(&s);
    let text = string_of(&s);
    let block = extract_json_block(text.as_str());
    own_str(block)
}

// ---------------------------------------------------------------------------
// Verdicts
// ---------------------------------------------------------------------------

/// A pairwise verdict on two answers shown as `A` and `B`: which one won
/// (any other value is a draw), each answer's named scores in key order,
/// and the stated reasons.
#[derive(Debug)]
pub struct Verdict {
    pub winner: String,
    pub scores: Vec<(String, Vec<(String, i64)>)>,
    pub rationale: String,
}

/// A list of named scores.
pub type ScoresView = Seq<(Seq<char>, i64)>;

/// The views of named scores.
pub open spec fn scores_view(v: Seq<(String, i64)>) -> ScoresView {
    v.map_values(|x: (String, i64)| (x.0@, x.1))
}

/// The views of a verdict's score table.
pub open spec fn table_scores(t: Seq<(String, Vec<(String, i64)>)>) -> Seq<(Seq<char>, ScoresView)> {
    t.map_values(|x: (String, Vec<(String, i64)>)| (x.0@, scores_view(x.1@)))
}

/// The sum of the scores.
pub open spec fn total(v: ScoresView) -> int
    decreases v.len(),
{
    if v.len() == 0 {
        0
    } else {
        total(v.drop_last()) + v.last().1
    }
}

/// Summing the scores in order never leaves `i64`.
pub open spec fn sums_fit(v: ScoresView) -> bool {
    forall|k: int| 0 <= k <= v.len() ==> i64::MIN <= #[trigger] total(v.take(k)) <= i64::MAX
}

/// Keys listed strictly ascending, so none occurs twice (as a map keyed
/// by them holds them).
pub open spec fn keys_ascending<V>(t: Seq<(Seq<char>, V)>) -> bool {
    forall|i: int, j: int| 0 <= i < j < t.len() ==> seq_lt(#[trigger] t[i].0, #[trigger] t[j].0)
}

/// A well-formed score table: answer labels ascending and unique, and each
/// answer's criteria ascending and unique.
pub open spec fn scores_wf(t: Seq<(Seq<char>, ScoresView)>) -> bool {
    &&& keys_ascending(t)
    &&& forall|i: int| 0 <= i < t.len() ==> keys_ascending(#[trigger] t[i].1)
}

impl Verdict {
    /// The score table is a map: labels and criteria each occur once, in
    /// ascending order.
    pub open spec fn wf(&self) -> bool {
        scores_wf(table_scores(self.scores@))
    }
}

fn criteria_ascending(v: &Vec<(String, i64)>) -> (r: bool)
    ensures
        r == keys_ascending(scores_view(v@)),
{
    let ghost sv = scores_view(v@);
    let mut i: usize = 0;
    while i < v.len()
        invariant
            0 <= i <= v@.len(),
            sv == scores_view(v@),
            forall|a: int, b: int| 0 <= a < b < sv.len() && a < i ==> seq_lt(#[trigger] sv[a].0, #[trigger] sv[b].0),
        decreases v@.len() - i,
    {
        let mut j: usize = i + 1;
        while j < v.len()
            invariant
                0 <= i < v@.len(),
                i + 1 <= j <= v@.len(),
                sv == scores_view(v@),
                forall|a: int, b: int| 0 <= a < b < sv.len() && a < i ==> seq_lt(#[trigger] sv[a].0, #[trigger] sv[b].0),
                forall|b: int| i < b < j ==> seq_lt(sv[i as int].0, #[trigger] sv[b].0),
            decreases v@.len() - j,
        {
            assert(sv[i as int].0 == v@[i as int].0@ && sv[j as int].0 == v@[j as int].0@);
            if !crate::order::str_lt(v[i].0.as_str(), v[j].0.as_str()) {
                return false;
            }
            j = j + 1;
        }
        i = i + 1;
    }
    true
}

/// Whether a score table is well formed: its answer labels and each
/// answer's criteria occur once each, in ascending order.
pub fn scores_well_formed(scores: &Vec<(String, Vec<(String, i64)>)>) -> (r: bool)
    ensures
        r == scores_wf(table_scores(scores@)),
{
    let ghost tv = table_scores(scores@);
    let mut k: usize = 0;
    while k < scores.len()
        invariant
            0 <= k <= scores@.len(),
            tv == table_scores(scores@),
            forall|m: int| 0 <= m < k ==> keys_ascending(#[trigger] tv[m].1),
        decreases scores@.len() - k,
    {
        assert(tv[k as int].1 == scores_view(scores@[k as int].1@));
        if !criteria_ascending(&scores[k].1) {
            return false;
        }
        k = k + 1;
    }
    let mut i: usize = 0;
    while i < scores.len()
        invariant
            0 <= i <= scores@.len(),
            tv == table_scores(scores@),
            forall|m: int| 0 <= m < tv.len() ==> keys_ascending(#[trigger] tv[m].1),
            forall|a: int, b: int| 0 <= a < b < tv.len() && a < i ==> seq_lt(#[trigger] tv[a].0, #[trigger] tv[b].0),
        decreases scores@.len() - i,
    {
        let mut j: usize = i + 1;
        while j < scores.len()
            invariant
                0 <= i < scores@.len(),
                i + 1 <= j <= scores@.len(),
                tv == table_scores(scores@),
                forall|a: int, b: int| 0 <= a < b < tv.len() && a < i ==> seq_lt(#[trigger] tv[a].0, #[trigger] tv[b].0),
                forall|b: int| i < b < j ==> seq_lt(tv[i as int].0, #[trigger] tv[b].0),
            decreases scores@.len() - j,
        {
            assert(tv[i as int].0 == scores@[i as int].0@ && tv[j as int].0 == scores@[j as int].0@);
            if !crate::order::str_lt(scores[i].0.as_str(), scores[j].0.as_str()) {
                return false;
            }
            j = j + 1;
        }
        i = i + 1;
    }
    true
}

/// The scores of an answer label: those of its entry (the only one in a
/// well-formed table), or none.
pub open spec fn side(t: Seq<(Seq<char>, ScoresView)>, label: Seq<char>) -> ScoresView
    decreases t.len(),
{
    if t.len() == 0 {
        Seq::empty()
    } else if t[0].0 == label {
        t[0].1
    } else {
        side(t.drop_first(), label)
    }
}

/// A verdict mapped back to ticks, given which tick was shown as answer
/// A: the normalized winner (`tick_1`, `tick_2` or `tie`) and the score gap
/// `tick_2 - tick_1`.
pub open spec fn normalized(winner: Seq<char>, a_total: int, b_total: int, tick_a: u32) -> (Seq<char>, int) {
    let norm = if winner == "A"@ {
        if tick_a == 1 { "tick_1"@ } else { "tick_2"@ }
    } else if winner == "B"@ {
        if tick_a == 1 { "tick_2"@ } else { "tick_1"@ }
    } else {
        "tie"@
    };
    let gap = if tick_a == 1 { b_total - a_total } else { a_total - b_total };
    (norm, gap)
}

fn sum_scores(v: &Vec<(String, i64)>) -> (s: i64)
    requires
        sums_fit(scores_view(v@)),
    ensures
        s == total(scores_view(v@)),
{
    let ghost sv = scores_view(v@);
    let mut acc: i64 = 0;
    let mut j: usize = 0;
    while j < v.len()
        invariant
            0 <= j <= v@.len(),
            sv == scores_view(v@),
            sums_fit(sv),
            acc == total(sv.take(j as int)),
        decreases v@.len() - j,
    {
        assert(sv.take(j + 1).drop_last() =~= sv.take(j as int));
        assert(sv.take(j + 1).last() == sv[j as int]);
        assert(i64::MIN <= total(sv.take(j + 1)) <= i64::MAX);
        acc = acc + v[j].1;
        j = j + 1;
    }
    assert(sv.take(j as int) =~= sv);
    acc
}

fn side_of<'a>(t: &'a Vec<(String, Vec<(String, i64)>)>, label: &str) -> (r: Option<&'a Vec<(String, i64)>>)
    ensures
        match r {
            Some(v) => scores_view(v@) == side(table_scores(t@), label@),
            None => side(table_scores(t@), label@) == Seq::<(Seq<char>, i64)>::empty(),
        },
{
    let ghost tv = table_scores(t@);
    assert(tv.skip(0) =~= tv);
    let mut j: usize = 0;
    while j < t.len()
        invariant
            0 <= j <= t@.len(),
            tv == table_scores(t@),
            side(tv, label@) == side(tv.skip(j as int), label@),
        decreases t@.len() - j,
    {
        assert(tv.skip(j as int)[0] == tv[j as int]);
        assert(tv.skip(j as int).drop_first() =~= tv.skip(j + 1));
        if str_eq(t[j].0.as_str(), label) {
            return Some(&t[j].1);
        }
        j = j + 1;
    }
    assert(tv.skip(j as int).len() == 0);
    None
}

/// Map a verdict back to ticks given which tick was answer A: the
/// normalized winner and the gap `tick_2 - tick_1` between the answers'
/// score sums.
pub fn normalize_verdict(verdict: &Verdict, tick_a: u32) -> (r: (String, i64))
    requires
        verdict.wf(),
        sums_fit(side(table_scores(verdict.scores@), "A"@)),
        sums_fit(side(table_scores(verdict.scores@), "B"@)),
        i64::MIN <= normalized(
            verdict.winner@,
            total(side(table_scores(verdict.scores@), "A"@)),
            total(side(table_scores(verdict.scores@), "B"@)),
            tick_a,
        ).1 <= i64::MAX,
    ensures
        (r.0@, r.1 as int) == normalized(
            verdict.winner@,
            total(side(table_scores(verdict.scores@), "A"@)),
            total(side(table_scores(verdict.scores@), "B"@)),
            tick_a,
        ),
{
    let a_sum: i64 = match side_of(&verdict.scores, "A") {
        Some(v) => sum_scores(v),
        None => 0,
    };
    let b_sum: i64 = match side_of(&verdict.scores, "B") {
        Some(v) => sum_scores(v),
        None => 0,
    };
    let norm = if str_eq(verdict.winner.as_str(), "A") {
        if tick_a == 1 { "tick_1" } else { "tick_2" }
    } else if str_eq(verdict.winner.as_str(), "B") {
        if tick_a == 1 { "tick_2" } else { "tick_1" }
    } else {
        "tie"
    };
    let gap = if tick_a == 1 { b_sum - a_sum } else { a_sum - b_sum };
    (own_str(norm), gap)
}

/// The other answer label: `A` and `B` trade places; anything else (a
/// draw) stays.
pub open spec fn swapped(winner: Seq<char>) -> Seq<char> {
    if winner == "A"@ {
        "B"@
    } else if winner == "B"@ {
        "A"@
    } else {
        winner
    }
}

/// Swapping the presentation order does not change what a verdict says
/// about the ticks: a verdict on (tick 2 as A, tick 1 as B) normalizes to
/// the same winner and gap as the mirrored verdict on (tick 1 as A, tick 2
/// as B).
pub proof fn law_swapped_presentation_agrees(winner: Seq<char>, a_total: int, b_total: int)
    ensures
        normalized(winner, a_total, b_total, 2) == normalized(swapped(winner), b_total, a_total, 1),
{
    reveal_strlit("A");
    reveal_strlit("B");
    if winner == "A"@ {
        assert(swapped(winner) == "B"@);
        assert("B"@[0] != "A"@[0]);
        assert("B"@ != "A"@);
    } else if winner == "B"@ {
        assert(swapped(winner) == "A"@);
    }
}

/// The views of normalized verdicts.
pub open spec fn verdicts_view(v: Seq<(String, i64)>) -> ScoresView {
    scores_view(v)
}

/// The sign of `x`.
pub open spec fn signum(x: int) -> int {
    if x > 0 { 1 } else if x < 0 { -1 } else { 0 }
}

/// The first two verdicts disagree: different winners, or gaps of opposite
/// sign (both non-zero).
pub open spec fn disagree(v: ScoresView) -> bool {
    v.len() >= 2 && (v[0].0 != v[1].0 || (signum(v[0].1 as int) != signum(v[1].1 as int) && v[0].1 != 0 && v[1].1
        != 0))
}

/// Two verdicts disagree exactly when their winners differ or, with the
/// same winner, their score gaps point in opposite directions (their
/// product is negative); a single verdict never disagrees.
pub proof fn law_disagreement(v: ScoresView)
    ensures
        disagree(v) <==> (v.len() >= 2 && (v[0].0 != v[1].0 || (v[0].1 as int) * (v[1].1 as int) < 0)),
{
    if v.len() >= 2 {
        let a = v[0].1 as int;
        let b = v[1].1 as int;
        assert((a * b < 0) <==> ((a > 0 && b < 0) || (a < 0 && b > 0))) by (nonlinear_arith);
    }
}

/// Whether the first two verdicts disagree, which calls for a third.
pub fn verdicts_disagree(v: &Vec<(String, i64)>) -> (r: bool)
    ensures
        r == disagree(verdicts_view(v@)),
{
    if v.len() < 2 {
        return false;
    }
    assert(verdicts_view(v@)[0] == (v@[0].0@, v@[0].1));
    assert(verdicts_view(v@)[1] == (v@[1].0@, v@[1].1));
    let (g0, g1) = (v[0].1, v[1].1);
    let s0: i8 = if g0 > 0 { 1 } else if g0 < 0 { -1 } else { 0 };
    let s1: i8 = if g1 > 0 { 1 } else if g1 < 0 { -1 } else { 0 };
    !str_eq(v[0].0.as_str(), v[1].0.as_str()) || (s0 != s1 && g0 != 0 && g1 != 0)
}

/// How many verdicts name winner `w`.
pub open spec fn winner_count(v: ScoresView, w: Seq<char>) -> nat
    decreases v.len(),
{
    if v.len() == 0 {
        0
    } else {
        winner_count(v.drop_last(), w) + if v.last().0 == w { 1nat } else { 0nat }
    }
}

/// `w` is named by some verdict, and more often than any other winner.
pub open spec fn leads(v: ScoresView, w: Seq<char>) -> bool {
    &&& exists|i: int| 0 <= i < v.len() && v[i].0 == w
    &&& forall|i: int| 0 <= i < v.len() && v[i].0 != w ==> winner_count(v, #[trigger] v[i].0) < winner_count(v, w)
}

/// The majority winner: none without verdicts; the most frequent winner
/// when it is unique; otherwise `tie`.
pub open spec fn majority(v: ScoresView) -> Option<Seq<char>> {
    if v.len() == 0 {
        None
    } else if exists|w: Seq<char>| leads(v, w) {
        Some(choose|w: Seq<char>| leads(v, w))
    } else {
        Some("tie"@)
    }
}

fn count_winner(v: &Vec<(String, i64)>, w: &str) -> (c: usize)
    ensures
        c == winner_count(verdicts_view(v@), w@),
{
    let ghost vv = verdicts_view(v@);
    let mut c: usize = 0;
    let mut j: usize = 0;
    while j < v.len()
        invariant
            0 <= j <= v@.len(),
            vv == verdicts_view(v@),
            c == winner_count(vv.take(j as int), w@),
            c <= j,
        decreases v@.len() - j,
    {
        assert(vv.take(j + 1).drop_last() =~= vv.take(j as int));
        assert(vv.take(j + 1).last() == vv[j as int]);
        if str_eq(v[j].0.as_str(), w) {
            c = c + 1;
        }
        j = j + 1;
    }
    assert(vv.take(j as int) =~= vv);
    c
}

/// The majority winner of the verdicts (`tie` on a split), or none
/// without verdicts.
pub fn majority_winner(v: &Vec<(String, i64)>) -> (r: Option<String>)
    ensures
        match r {
            Some(w) => majority(verdicts_view(v@)) == Some(w@),
            None => majority(verdicts_view(v@)) is None,
        },
{
    let ghost vv = verdicts_view(v@);
    if v.len() == 0 {
        return None;
    }
    let mut counts: Vec<usize> = Vec::new();
    let mut j: usize = 0;
    while j < v.len()
        invariant
            0 <= j <= v@.len(),
            vv == verdicts_view(v@),
            counts@.len() == j,
            forall|t: int| 0 <= t < j ==> counts@[t] == winner_count(vv, #[trigger] vv[t].0),
        decreases v@.len() - j,
    {
        let c = count_winner(v, v[j].0.as_str());
        assert(vv[j as int].0 == v@[j as int].0@);
        counts.push(c);
        j = j + 1;
    }
    let mut best: usize = 0;
    let mut j: usize = 1;
    while j < v.len()
        invariant
            1 <= j <= v@.len(),
            counts@.len() == v@.len(),
            best < j,
            forall|t: int| 0 <= t < j ==> counts@[t] <= counts@[best as int],
        decreases v@.len() - j,
    {
        if counts[j] > counts[best] {
            best = j;
        }
        j = j + 1;
    }
    let mut tie = false;
    let mut j: usize = 0;
    while j < v.len()
        invariant
            0 <= j <= v@.len(),
            vv == verdicts_view(v@),
            counts@.len() == v@.len(),
            best < v@.len(),
            tie ==> exists|t: int| 0 <= t < v@.len() && counts@[t] == counts@[best as int] && vv[t].0 != vv[best as int].0,
            !tie ==> forall|t: int| 0 <= t < j && vv[t].0 != vv[best as int].0 ==> counts@[t] != counts@[best as int],
        decreases v@.len() - j,
    {
        assert(vv[j as int].0 == v@[j as int].0@);
        assert(vv[best as int].0 == v@[best as int].0@);
        if counts[j] == counts[best] && !str_eq(v[j].0.as_str(), v[best].0.as_str()) {
            tie = true;
        }
        j = j + 1;
    }
    let ghost wb = vv[best as int].0;
    if tie {
        proof {
            let t = choose|t: int| 0 <= t < v@.len() && counts@[t] == counts@[best as int] && vv[t].0 != vv[best as int].0;
            assert forall|w: Seq<char>| !leads(vv, w) by {
                if leads(vv, w) {
                    let i = choose|i: int| 0 <= i < vv.len() && vv[i].0 == w;
                    assert(counts@[i] == winner_count(vv, vv[i].0));
                    if w == wb {
                        assert(winner_count(vv, vv[t].0) < winner_count(vv, w));
                    } else {
                        assert(winner_count(vv, vv[best as int].0) < winner_count(vv, w));
                    }
                }
            }
        }
        return Some(own_str("tie"));
    }
    proof {
        assert(leads(vv, wb));
        assert forall|w: Seq<char>| leads(vv, w) implies w == wb by {
            if w != wb {
                let i = choose|i: int| 0 <= i < vv.len() && vv[i].0 == w;
                assert(winner_count(vv, vv[i].0) < winner_count(vv, wb));
                assert(winner_count(vv, vv[best as int].0) < winner_count(vv, w));
            }
        }
    }
    Some(copy_string(&v[best].0))
}

/// Division rounding toward zero (`b > 0`).
pub open spec fn trunc_div(a: int, b: int) -> int {
    if a >= 0 { a / b } else { -((-a) / b) }
}

/// The mean gap rounds toward zero: `q = trunc_div(a, b)` is the integer
/// whose multiple `q * b` lies between zero and `a`, less than `b` away
/// from `a`.
pub proof fn law_mean_gap_rounds_toward_zero(a: int, b: int)
    requires
        b > 0,
    ensures
        a >= 0 ==> 0 <= trunc_div(a, b) * b <= a && a - trunc_div(a, b) * b < b,
        a < 0 ==> a <= trunc_div(a, b) * b <= 0 && trunc_div(a, b) * b - a < b,
{
    if a >= 0 {
        vstd::arithmetic::div_mod::lemma_fundamental_div_mod(a, b);
        let q = a / b;
        assert(q >= 0) by {
            vstd::arithmetic::div_mod::lemma_div_pos_is_pos(a, b);
        }
        assert(q * b == b * q) by (nonlinear_arith);
        assert(0 <= q * b) by (nonlinear_arith)
            requires
                q >= 0,
                b > 0,
        ;
    } else {
        vstd::arithmetic::div_mod::lemma_fundamental_div_mod(-a, b);
        let q = (-a) / b;
        assert(q >= 0) by {
            vstd::arithmetic::div_mod::lemma_div_pos_is_pos(-a, b);
        }
        assert(q * b == b * q) by (nonlinear_arith);
        assert((-q) * b == -(q * b)) by (nonlinear_arith);
        assert(0 <= q * b) by (nonlinear_arith)
            requires
                q >= 0,
                b > 0,
        ;
    }
}

/// The mean score gap of the verdicts (integer division rounding toward
/// zero), or none without verdicts.
pub fn mean_gap(v: &Vec<(String, i64)>) -> (r: Option<i64>)
    requires
        sums_fit(verdicts_view(v@)),
    ensures
        match r {
            Some(g) => v@.len() > 0 && g == trunc_div(total(verdicts_view(v@)), v@.len() as int),
            None => v@.len() == 0,
        },
{
    if v.len() == 0 {
        return None;
    }
    let s = sum_scores(v) as i128;
    let n = v.len() as i128;
    let q: i128 = if s >= 0 { s / n } else { -((-s) / n) };
    proof {
        assert(n >= 1);
        if s >= 0 {
            assert(0 <= s / n <= s) by (nonlinear_arith)
                requires
                    s >= 0,
                    n >= 1,
            ;
        } else {
            let ns: int = -(s as int);
            assert(0 <= ns / (n as int) <= ns) by (nonlinear_arith)
                requires
                    ns > 0,
                    n >= 1,
            ;
        }
    }
    Some(q as i64)
}

// ---------------------------------------------------------------------------
// Tallies
// ---------------------------------------------------------------------------

/// How many times `k` occurs.
pub open spec fn occurrences(keys: Seq<Seq<char>>, k: Seq<char>) -> nat
    decreases keys.len(),
{
    if keys.len() == 0 {
        0
    } else {
        occurrences(keys.drop_last(), k) + if keys.last() == k { 1nat } else { 0nat }
    }
}

/// `r` tallies `keys`: each distinct key once, in ascending order, with
/// its number of occurrences.
pub open spec fn is_tally(keys: Seq<Seq<char>>, r: Seq<(Seq<char>, nat)>) -> bool {
    &&& forall|i: int, j: int| 0 <= i < j < r.len() ==> seq_lt(#[trigger] r[i].0, #[trigger] r[j].0)
    &&& forall|i: int| 0 <= i < r.len() ==> keys.contains(#[trigger] r[i].0) && r[i].1 == occurrences(keys, r[i].0)
    &&& forall|t: int| 0 <= t < keys.len() ==> listed(r, #[trigger] keys[t])
}

/// `k` is one of the tallied keys.
pub open spec fn listed(r: Seq<(Seq<char>, nat)>, k: Seq<char>) -> bool {
    exists|i: int| 0 <= i < r.len() && #[trigger] r[i].0 == k
}

proof fn lemma_occurrences_push(keys: Seq<Seq<char>>, x: Seq<char>, k: Seq<char>)
    ensures
        occurrences(keys.push(x), k) == occurrences(keys, k) + if x == k { 1nat } else { 0nat },
{
    assert(keys.push(x).drop_last() =~= keys);
}

/// Count each distinct key, in ascending key order.
pub fn tally(keys: &Vec<String>) -> (r: Vec<(String, usize)>)
    ensures
        is_tally(keys@.map_values(|s: String| s@), r@.map_values(|x: (String, usize)| (x.0@, x.1 as nat))),
{
    let ghost kv = keys@.map_values(|s: String| s@);
    // Distinct keys in first-occurrence order, with their counts so far.
    let mut distinct: Vec<Vec<char>> = Vec::new();
    let mut counts: Vec<usize> = Vec::new();
    let mut j: usize = 0;
    while j < keys.len()
        invariant
            0 <= j <= keys@.len(),
            kv == keys@.map_values(|s: String| s@),
            distinct@.len() == counts@.len(),
            forall|a: int, b: int| 0 <= a < b < distinct@.len() ==> distinct@[a]@ != distinct@[b]@,
            forall|a: int| 0 <= a < distinct@.len() ==> kv.take(j as int).contains(#[trigger] distinct@[a]@)
                && counts@[a] == occurrences(kv.take(j as int), distinct@[a]@) && counts@[a] <= j,
            forall|t: int| 0 <= t < j ==> exists|a: int| 0 <= a < distinct@.len() && #[trigger] distinct@[a]@ == #[trigger] kv[t],
        decreases keys@.len() - j,
    {
        let key = chars_of(keys[j].as_str());
        assert(key@ == kv[j as int]);
        let ghost pre = kv.take(j as int);
        assert(kv.take(j + 1) =~= pre.push(kv[j as int]));
        let mut a: usize = 0;
        let mut found = false;
        while a < distinct.len() && !found
            invariant
                0 <= a <= distinct@.len(),
                distinct@.len() == counts@.len(),
                found ==> a < distinct@.len() && distinct@[a as int]@ == key@,
                forall|b: int| 0 <= b < a ==> distinct@[b]@ != key@,
            decreases distinct@.len() - a + if found { 0int } else { 1int },
        {
            if chars_equal(&distinct[a], &key) {
                found = true;
            } else {
                a = a + 1;
            }
        }
        proof {
            assert forall|b: int| 0 <= b < distinct@.len() implies occurrences(kv.take(j + 1), distinct@[b]@)
                == occurrences(pre, distinct@[b]@) + if kv[j as int] == distinct@[b]@ { 1nat } else { 0nat } by {
                lemma_occurrences_push(pre, kv[j as int], distinct@[b]@);
            }
        }
        if found {
            let c = counts[a] + 1;
            counts.set(a, c);
            proof {
                assert forall|t: int| 0 <= t < j + 1 implies exists|b: int| 0 <= b < distinct@.len() && #[trigger] distinct@[b]@
                    == #[trigger] kv[t] by {
                    if t == j {
                        assert(distinct@[a as int]@ == kv[t]);
                    }
                }
                assert forall|b: int| 0 <= b < distinct@.len() implies kv.take(j + 1).contains(#[trigger] distinct@[b]@) by {
                    let w = choose|w: int| 0 <= w < pre.len() && pre[w] == distinct@[b]@;
                    assert(kv.take(j + 1)[w] == pre[w]);
                }
            }
        } else {
            proof {
                lemma_occurrences_push(pre, kv[j as int], key@);
                assert(!pre.contains(key@)) by {
                    if pre.contains(key@) {
                        let w = choose|w: int| 0 <= w < pre.len() && pre[w] == key@;
                        assert(kv[w] == pre[w]);
                        let b = choose|b: int| 0 <= b < distinct@.len() && #[trigger] distinct@[b]@ == #[trigger] kv[w];
                        assert(distinct@[b]@ == key@);
                    }
                }
                lemma_occurrences_absent(pre, key@);
            }
            let ghost old_d = distinct@;
            distinct.push(key);
            counts.push(1);
            proof {
                let n = distinct@.len() - 1;
                assert forall|t: int| 0 <= t < j + 1 implies exists|b: int| 0 <= b < distinct@.len() && #[trigger] distinct@[b]@
                    == #[trigger] kv[t] by {
                    if t == j {
                        assert(distinct@[n]@ == kv[t]);
                    } else {
                        let b = choose|b: int| 0 <= b < old_d.len() && #[trigger] old_d[b]@ == #[trigger] kv[t];
                        assert(distinct@[b] == old_d[b]);
                    }
                }
                assert forall|b: int| 0 <= b < distinct@.len() implies kv.take(j + 1).contains(#[trigger] distinct@[b]@) by {
                    if b == n {
                        assert(kv.take(j + 1)[j as int] == kv[j as int]);
                    } else {
                        let w = choose|w: int| 0 <= w < pre.len() && pre[w] == distinct@[b]@;
                        assert(kv.take(j + 1)[w] == pre[w]);
                    }
                }
            }
        }
        j = j + 1;
    }
    assert(kv.take(j as int) =~= kv);
    // Order the distinct keys ascending.
    let m = distinct.len();
    let mut zeros: Vec<u32> = Vec::new();
    let mut t: usize = 0;
    while t < m
        invariant
            0 <= t <= m,
            zeros@.len() == t,
            forall|x: int| 0 <= x < t ==> #[trigger] zeros@[x] == 0,
        decreases m - t,
    {
        zeros.push(0);
        t = t + 1;
    }
    let idx = select_ranked(&zeros, &distinct, m);
    let ghost dv = distinct@.map_values(|v: Vec<char>| v@);
    proof {
        assert forall|j: int, l: int| 0 <= j < l < m implies idx@[j] != idx@[l] by {
            assert(item_before(zeros@, dv, idx@[j] as int, idx@[l] as int));
            lemma_seq_lt_irreflexive_local(dv[idx@[j] as int]);
        }
        lemma_full_cover(idx@, m as int);
    }
    let mut r: Vec<(String, usize)> = Vec::new();
    let mut t: usize = 0;
    while t < m
        invariant
            m == distinct@.len(),
            m == counts@.len(),
            dv == distinct@.map_values(|v: Vec<char>| v@),
            ranked_prefix(zeros@, dv, m as int, idx@),
            zeros@.len() == m,
            forall|x: int| 0 <= x < m ==> #[trigger] zeros@[x] == 0,
            0 <= t <= m,
            r@.len() == t,
            forall|x: int| 0 <= x < t ==> (#[trigger] r@[x]).0@ == dv[idx@[x] as int] && r@[x].1 == counts@[idx@[x] as int],
        decreases m - t,
    {
        let i = idx[t];
        assert(dv[i as int] == distinct@[i as int]@);
        r.push((string_of(&distinct[i]), counts[i]));
        t = t + 1;
    }
    proof {
        let rv = r@.map_values(|x: (String, usize)| (x.0@, x.1 as nat));
        assert forall|i: int, j: int| 0 <= i < j < rv.len() implies seq_lt(#[trigger] rv[i].0, #[trigger] rv[j].0) by {
            assert(item_before(zeros@, dv, idx@[i] as int, idx@[j] as int));
        }
        assert forall|i: int| 0 <= i < rv.len() implies kv.contains(#[trigger] rv[i].0) && rv[i].1 == occurrences(
            kv,
            rv[i].0,
        ) by {
            assert(rv[i].0 == distinct@[idx@[i] as int]@);
        }
        assert forall|x: int| 0 <= x < kv.len() implies listed(rv, #[trigger] kv[x]) by {
            let b = choose|b: int| 0 <= b < distinct@.len() && #[trigger] distinct@[b]@ == #[trigger] kv[x];
            assert(idx@.contains(b as usize));
            let i = choose|i: int| 0 <= i < idx@.len() && idx@[i] == b as usize;
            assert(rv[i].0 == kv[x]);
        }
        assert(is_tally(kv, rv));
    }
    r
}

proof fn lemma_occurrences_absent(keys: Seq<Seq<char>>, k: Seq<char>)
    requires
        !keys.contains(k),
    ensures
        occurrences(keys, k) == 0,
    decreases keys.len(),
{
    if keys.len() > 0 {
        assert(!keys.drop_last().contains(k)) by {
            if keys.drop_last().contains(k) {
                let w = choose|w: int| 0 <= w < keys.drop_last().len() && keys.drop_last()[w] == k;
                assert(keys[w] == k);
            }
        }
        lemma_occurrences_absent(keys.drop_last(), k);
        assert(keys[keys.len() - 1] == keys.last());
    }
}

proof fn lemma_seq_lt_irreflexive_local(a: Seq<char>)
    ensures
        !seq_lt(a, a),
{
    crate::order::lemma_seq_lt_irreflexive(a);
}

fn chars_equal(a: &Vec<char>, b: &Vec<char>) -> (r: bool)
    ensures
        r == (a@ == b@),
{
    if a.len() != b.len() {
        return false;
    }
    let mut i: usize = 0;
    while i < a.len()
        invariant
            0 <= i <= a@.len(),
            a@.len() == b@.len(),
            forall|j: int| 0 <= j < i ==> a@[j] == b@[j],
        decreases a@.len() - i,
    {
        if a[i] != b[i] {
            return false;
        }
        i = i + 1;
    }
    assert(a@ =~= b@);
    true
}

} // verus!
