//! Consensus bookkeeping for an epoch: why a consensus loop stopped, and
//! the tick-by-tick control of the loop itself (how many ticks run, when
//! convergence may be considered, and which criterion is credited).
//!
//! The convergence criteria themselves compare floating-point confidences
//! and similarities; their verdicts are handed in per tick.
use vstd::prelude::*;

use crate::judge::{is_tally, listed, tally};
use crate::order::seq_lt;
use crate::text::{chars_of, string_of};

verus! {

/// Why the consensus loop stopped on a quality criterion (as opposed to
/// running out of ticks).
#[derive(Debug, Clone, Copy, PartialEq, Eq)]
pub enum ConvergenceReason {
    /// Mean column confidence reached its threshold.
    MeanConfidence,
    /// Mean absolute confidence delta between ticks dropped to its bound.
    ConfidenceDelta,
    /// Cosine similarity of successive confidence vectors reached its
    /// threshold.
    ConfidenceCosine,
    /// Mean token-Jaccard similarity of successive per-column predictions
    /// reached its threshold.
    PredictionSimilarity,
}

/// The human-readable description of a reason.
pub open spec fn reason_text(r: ConvergenceReason) -> Seq<char> {
    match r {
        ConvergenceReason::MeanConfidence => "mean confidence threshold met"@,
        ConvergenceReason::ConfidenceDelta => "confidence delta stabilized"@,
        ConvergenceReason::ConfidenceCosine => "confidence vector cosine stabilized"@,
        ConvergenceReason::PredictionSimilarity => "prediction token-similarity stabilized"@,
    }
}

impl ConvergenceReason {
    /// The human-readable description of this reason.
    pub fn description(&self) -> (s: &'static str)
        ensures
            s@ == reason_text(*self),
    {
        match self {
            ConvergenceReason::MeanConfidence => "mean confidence threshold met",
            ConvergenceReason::ConfidenceDelta => "confidence delta stabilized",
            ConvergenceReason::ConfidenceCosine => "confidence vector cosine stabilized",
            ConvergenceReason::PredictionSimilarity => "prediction token-similarity stabilized",
        }
    }
}

/// The criterion credited at the end of `tick`: none before `min_ticks`;
/// otherwise the confidence criteria's verdict, else the prediction
/// similarity verdict.
pub open spec fn tick_verdict(
    tick: u32,
    min_ticks: u32,
    confidence: Option<ConvergenceReason>,
    similarity: Option<ConvergenceReason>,
) -> Option<ConvergenceReason> {
    if tick < min_ticks {
        None
    } else if confidence is Some {
        confidence
    } else {
        similarity
    }
}

/// Which criterion a tick credits: none before `min_ticks`; from then on
/// the loop stabilizes whenever either criterion is met, crediting the
/// confidence criteria first and otherwise the prediction-similarity
/// criterion.
pub proof fn law_tick_verdict_credits(
    tick: u32,
    min_ticks: u32,
    confidence: Option<ConvergenceReason>,
    similarity: Option<ConvergenceReason>,
)
    ensures
        tick < min_ticks ==> tick_verdict(tick, min_ticks, confidence, similarity) is None,
        tick >= min_ticks ==> (tick_verdict(tick, min_ticks, confidence, similarity) is Some <==> (confidence is Some
            || similarity is Some)),
        tick >= min_ticks && confidence is Some ==> tick_verdict(tick, min_ticks, confidence, similarity)
            == confidence,
        forall|r: ConvergenceReason|
            tick >= min_ticks && confidence is None && similarity == Some(r) ==> tick_verdict(
                tick,
                min_ticks,
                confidence,
                similarity,
            ) == Some(r),
{
}

/// The control state of one epoch's consensus loop: ticks `1..=max_ticks`
/// run in order until a quality criterion is met at or after `min_ticks`.
#[derive(Debug)]
pub struct EpochControl {
    /// Hard cap on the number of ticks.
    pub max_ticks: u32,
    /// Convergence is not considered before this tick.
    pub min_ticks: u32,
    /// Ticks started so far (the last tick's number).
    pub ticks_run: u32,
    /// Whether a quality criterion stopped the loop.
    pub stabilized: bool,
    /// Which criterion stopped the loop, if any.
    pub reason: Option<ConvergenceReason>,
    /// Whether the loop is over.
    pub finished: bool,
}

impl EpochControl {
    /// The control invariant: never more than `max_ticks` ticks; a reason is
    /// recorded exactly when the loop stabilized, which ends it, and only
    /// at or after `min_ticks`; a loop that has used up its ticks is over.
    pub open spec fn wf(&self) -> bool {
        &&& self.ticks_run <= self.max_ticks
        &&& self.stabilized == self.reason is Some
        &&& self.stabilized ==> self.finished && self.ticks_run >= self.min_ticks && self.ticks_run >= 1
        &&& self.finished && !self.stabilized ==> self.ticks_run == self.max_ticks
    }

    /// A loop that has not started: no tick run, not stabilized.
    pub fn new(max_ticks: u32, min_ticks: u32) -> (c: Self)
        ensures
            c.wf(),
            c.max_ticks == max_ticks,
            c.min_ticks == min_ticks,
            c.ticks_run == 0,
            !c.stabilized,
            c.reason is None,
            c.finished == (max_ticks == 0),
    {
        EpochControl { max_ticks, min_ticks, ticks_run: 0, stabilized: false, reason: None, finished: max_ticks == 0 }
    }

    /// Start the next tick, returning its number, or `None` when the loop
    /// is over.
    pub fn begin_tick(&mut self) -> (t: Option<u32>)
        requires
            old(self).wf(),
        ensures
            final(self).wf(),
            final(self).max_ticks == old(self).max_ticks,
            final(self).min_ticks == old(self).min_ticks,
            final(self).stabilized == old(self).stabilized,
            final(self).reason == old(self).reason,
            final(self).finished == old(self).finished,
            if old(self).finished || old(self).ticks_run >= old(self).max_ticks {
                t is None && final(self).ticks_run == old(self).ticks_run
            } else {
                t == Some((old(self).ticks_run + 1) as u32) && final(self).ticks_run == old(self).ticks_run + 1
            },
    {
        if self.finished || self.ticks_run >= self.max_ticks {
            return None;
        }
        self.ticks_run = self.ticks_run + 1;
        Some(self.ticks_run)
    }

    /// Close the current tick with the verdicts of the confidence criteria
    /// and of the prediction-similarity criterion. Returns whether another
    /// tick should run.
    pub fn end_tick(&mut self, confidence: Option<ConvergenceReason>, similarity: Option<ConvergenceReason>) -> (more: bool)
        requires
            old(self).wf(),
            !old(self).finished,
            old(self).ticks_run >= 1,
        ensures
            final(self).wf(),
            final(self).max_ticks == old(self).max_ticks,
            final(self).min_ticks == old(self).min_ticks,
            final(self).ticks_run == old(self).ticks_run,
            final(self).reason == tick_verdict(old(self).ticks_run, old(self).min_ticks, confidence, similarity),
            final(self).stabilized == final(self).reason is Some,
            final(self).finished == (final(self).stabilized || old(self).ticks_run >= old(self).max_ticks),
            more == !final(self).finished,
            old(self).ticks_run >= old(self).min_ticks && (confidence is Some || similarity is Some) ==> !more
                && final(self).stabilized,
            old(self).ticks_run >= old(self).min_ticks && confidence is None ==> final(self).reason == similarity,
            old(self).ticks_run >= old(self).min_ticks && confidence is Some ==> final(self).reason == confidence,
            old(self).ticks_run < old(self).min_ticks ==> !final(self).stabilized,
    {
        let verdict = if self.ticks_run < self.min_ticks {
            None
        } else if confidence.is_some() {
            confidence
        } else {
            similarity
        };
        if verdict.is_some() {
            self.stabilized = true;
            self.reason = verdict;
            self.finished = true;
        } else if self.ticks_run >= self.max_ticks {
            self.finished = true;
        }
        !self.finished
    }
}

// ---------------------------------------------------------------------------
// Prediction tokens
// ---------------------------------------------------------------------------

/// What `str::to_lowercase` returns for a text (Unicode case mapping).
pub uninterp spec fn lowercase_text(s: Seq<char>) -> Seq<char>;

/// What `char::is_alphanumeric` says of a character (Unicode alphabetic
/// or numeric).
pub uninterp spec fn alphanumeric(c: char) -> bool;

/// `str::to_lowercase`: the text's Unicode lower-case mapping, a function
/// of the text alone.
#[verifier::external_body]
fn to_lowercase(s: &str) -> (r: String)
    ensures
        r@ == lowercase_text(s@),
{
    s.to_lowercase()
}

/// `char::is_alphanumeric`: whether the character is Unicode alphabetic
/// or numeric, a function of the character alone.
#[verifier::external_body]
fn is_alphanumeric(c: char) -> (r: bool)
    ensures
        r == alphanumeric(c),
{
    c.is_alphanumeric()
}

/// Splitting a text into maximal runs of characters whose flag is set: the
/// finished runs and the run in progress.
pub open spec fn split_state(s: Seq<char>, f: Seq<bool>) -> (Seq<Seq<char>>, Seq<char>)
    decreases s.len(),
{
    if s.len() == 0 {
        (Seq::empty(), Seq::empty())
    } else {
        let (done, cur) = split_state(s.drop_last(), f.drop_last());
        if f.last() {
            (done, cur.push(s.last()))
        } else if cur.len() > 0 {
            (done.push(cur), Seq::empty())
        } else {
            (done, Seq::empty())
        }
    }
}

/// The maximal runs of flagged characters of a text, in order.
pub open spec fn runs(s: Seq<char>, f: Seq<bool>) -> Seq<Seq<char>> {
    let (done, cur) = split_state(s, f);
    if cur.len() > 0 {
        done.push(cur)
    } else {
        done
    }
}

/// The alphanumeric flags of a text's characters.
pub open spec fn alphanumeric_flags(s: Seq<char>) -> Seq<bool> {
    s.map_values(|c: char| alphanumeric(c))
}

/// The maximal runs of alphanumeric characters of a text, in order.
pub open spec fn words(s: Seq<char>) -> Seq<Seq<char>> {
    runs(s, alphanumeric_flags(s))
}

/// The tokens of a text: the words of its lower-case form.
pub open spec fn token_words(s: Seq<char>) -> Seq<Seq<char>> {
    words(lowercase_text(s))
}

/// `t` lists the distinct entries of `w`, ascending.
pub open spec fn is_sorted_set_of(w: Seq<Seq<char>>, t: Seq<Seq<char>>) -> bool {
    &&& forall|i: int, j: int| 0 <= i < j < t.len() ==> seq_lt(#[trigger] t[i], #[trigger] t[j])
    &&& forall|x: Seq<char>| t.contains(x) <==> w.contains(x)
}

/// `t` lists the distinct tokens of `s`, ascending.
pub open spec fn is_token_list(s: Seq<char>, t: Seq<Seq<char>>) -> bool {
    is_sorted_set_of(token_words(s), t)
}

/// Split a text into the maximal runs of characters whose flag is set
/// (`flags[i]` belongs to `chars[i]`); unflagged characters only separate
/// runs.
pub fn split_runs(chars: &Vec<char>, flags: &Vec<bool>) -> (r: Vec<String>)
    requires
        chars@.len() == flags@.len(),
    ensures
        r@.map_values(|w: String| w@) == runs(chars@, flags@),
{
    let mut out: Vec<String> = Vec::new();
    let mut cur: Vec<char> = Vec::new();
    let mut i: usize = 0;
    while i < chars.len()
        invariant
            0 <= i <= chars@.len(),
            chars@.len() == flags@.len(),
            (out@.map_values(|w: String| w@), cur@) == split_state(chars@.take(i as int), flags@.take(i as int)),
        decreases chars@.len() - i,
    {
        let c = chars[i];
        assert(chars@.take(i + 1).drop_last() =~= chars@.take(i as int));
        assert(flags@.take(i + 1).drop_last() =~= flags@.take(i as int));
        assert(chars@.take(i + 1).last() == c);
        assert(flags@.take(i + 1).last() == flags@[i as int]);
        let ghost before = out@;
        if flags[i] {
            cur.push(c);
        } else if cur.len() > 0 {
            out.push(string_of(&cur));
            assert(out@.map_values(|w: String| w@) =~= before.map_values(|w: String| w@).push(cur@));
            cur = Vec::new();
        }
        i = i + 1;
    }
    assert(chars@.take(i as int) =~= chars@);
    assert(flags@.take(i as int) =~= flags@);
    if cur.len() > 0 {
        let ghost before = out@;
        out.push(string_of(&cur));
        assert(out@.map_values(|w: String| w@) =~= before.map_values(|w: String| w@).push(cur@));
    }
    out
}

/// The distinct entries of a word list, ascending.
pub fn sorted_set(ws: &Vec<String>) -> (t: Vec<String>)
    ensures
        is_sorted_set_of(ws@.map_values(|w: String| w@), t@.map_values(|w: String| w@)),
{
    let counted = tally(ws);
    let ghost wv = ws@.map_values(|w: String| w@);
    let ghost cv = counted@.map_values(|x: (String, usize)| (x.0@, x.1 as nat));
    let mut t: Vec<String> = Vec::new();
    let mut k: usize = 0;
    while k < counted.len()
        invariant
            0 <= k <= counted@.len(),
            cv == counted@.map_values(|x: (String, usize)| (x.0@, x.1 as nat)),
            t@.len() == k,
            forall|i: int| 0 <= i < k ==> (#[trigger] t@[i])@ == cv[i].0,
        decreases counted@.len() - k,
    {
        t.push(crate::text::copy_string(&counted[k].0));
        k = k + 1;
    }
    proof {
        let tv = t@.map_values(|w: String| w@);
        assert forall|i: int, j: int| 0 <= i < j < tv.len() implies seq_lt(#[trigger] tv[i], #[trigger] tv[j]) by {
            assert(tv[i] == cv[i].0 && tv[j] == cv[j].0);
        }
        assert forall|x: Seq<char>| tv.contains(x) <==> wv.contains(x) by {
            if tv.contains(x) {
                let i = choose|i: int| 0 <= i < tv.len() && tv[i] == x;
                assert(cv[i].0 == x);
            }
            if wv.contains(x) {
                let w = choose|w: int| 0 <= w < wv.len() && wv[w] == x;
                assert(listed(cv, wv[w]));
                let i = choose|i: int| 0 <= i < cv.len() && #[trigger] cv[i].0 == wv[w];
                assert(tv[i] == x);
            }
        }
    }
    t
}

/// The distinct tokens of a text, ascending: lower-cased, split at every
/// character that is not alphanumeric, empty pieces dropped.
pub fn tokenize(text: &str) -> (t: Vec<String>)
    ensures
        is_token_list(text@, t@.map_values(|w: String| w@)),
{
    let lower = to_lowercase(text);
    let chars = chars_of(lower.as_str());
    let mut flags: Vec<bool> = Vec::new();
    let mut i: usize = 0;
    while i < chars.len()
        invariant
            0 <= i <= chars@.len(),
            flags@ == alphanumeric_flags(chars@).take(i as int),
        decreases chars@.len() - i,
    {
        flags.push(is_alphanumeric(chars[i]));
        i = i + 1;
        assert(flags@ =~= alphanumeric_flags(chars@).take(i as int));
    }
    assert(flags@ =~= alphanumeric_flags(chars@));
    let ws = split_runs(&chars, &flags);
    sorted_set(&ws)
}

/// How many of `a`'s entries occur in `b`.
pub open spec fn shared(a: Seq<Seq<char>>, b: Seq<Seq<char>>) -> nat
    decreases a.len(),
{
    if a.len() == 0 {
        0
    } else {
        shared(a.drop_last(), b) + if b.contains(a.last()) { 1nat } else { 0nat }
    }
}

proof fn lemma_shared_bound(a: Seq<Seq<char>>, b: Seq<Seq<char>>)
    ensures
        shared(a, b) <= a.len(),
    decreases a.len(),
{
    if a.len() > 0 {
        lemma_shared_bound(a.drop_last(), b);
    }
}

fn contains_string(v: &Vec<String>, x: &String) -> (r: bool)
    ensures
        r == v@.map_values(|w: String| w@).contains(x@),
{
    let ghost vv = v@.map_values(|w: String| w@);
    let mut i: usize = 0;
    while i < v.len()
        invariant
            0 <= i <= v@.len(),
            vv == v@.map_values(|w: String| w@),
            forall|j: int| 0 <= j < i ==> vv[j] != x@,
        decreases v@.len() - i,
    {
        if crate::text::str_eq(v[i].as_str(), x.as_str()) {
            assert(vv[i as int] == x@);
            return true;
        }
        i = i + 1;
    }
    false
}

/// The sizes of the intersection and the union of two texts' token sets,
/// whose ratio is their token-Jaccard similarity (taken as 0 when the
/// union is empty).
pub fn token_overlap(a: &str, b: &str) -> (r: (usize, u128))
    ensures
        exists|ta: Seq<Seq<char>>, tb: Seq<Seq<char>>|
            is_token_list(a@, ta) && is_token_list(b@, tb) && r.0 == shared(ta, tb) && r.1 == ta.len() + tb.len()
                - shared(ta, tb),
{
    let ta = tokenize(a);
    let tb = tokenize(b);
    let ghost tav = ta@.map_values(|w: String| w@);
    let ghost tbv = tb@.map_values(|w: String| w@);
    let mut inter: usize = 0;
    let mut i: usize = 0;
    while i < ta.len()
        invariant
            0 <= i <= ta@.len(),
            tav == ta@.map_values(|w: String| w@),
            tbv == tb@.map_values(|w: String| w@),
            inter == shared(tav.take(i as int), tbv),
            inter <= i,
        decreases ta@.len() - i,
    {
        assert(tav.take(i + 1).drop_last() =~= tav.take(i as int));
        assert(tav.take(i + 1).last() == ta@[i as int]@);
        if contains_string(&tb, &ta[i]) {
            inter = inter + 1;
        }
        i = i + 1;
    }
    assert(tav.take(i as int) =~= tav);
    proof {
        lemma_shared_bound(tav, tbv);
    }
    let union: u128 = ta.len() as u128 - inter as u128 + tb.len() as u128;
    (inter, union)
}

} // verus!
