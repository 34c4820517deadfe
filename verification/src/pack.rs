//! Column packs: an explicit list of columns (id, sphere, system prompt and
//! an optional abstraction-level tag), validated and materialized in
//! document order. Generated topologies apply positionally over that order.
use vstd::prelude::*;

use crate::column::{CorticalColumn, ColumnView, DomainSphere, fresh_column, sphere_name};
use crate::text::{
    ascii_lowercase, chars_of, is_blank, is_ws, push_chars, push_str, string_of, to_ascii_lowercase, trim_chars,
    trim_end_seq, trim_seq, trim_start_seq,
};

verus! {

/// One column of a pack, as written.
#[derive(Debug)]
pub struct ColumnPackEntry {
    pub id: String,
    /// Case-insensitive: Physics | Mathematics | Coding | Psychology (with
    /// the short forms Math, Maths, Code, Psych).
    pub sphere: String,
    pub system_prompt: String,
    /// Optional abstraction-level tag (0 = most concrete); not range-checked.
    pub level: Option<u8>,
}

/// A whole pack.
#[derive(Debug)]
pub struct ColumnPack {
    /// Optional human description (ignored).
    pub description: Option<String>,
    pub columns: Vec<ColumnPackEntry>,
}

/// `(id, sphere, system prompt, level)` as written.
pub type EntryView = (Seq<char>, Seq<char>, Seq<char>, Option<u8>);

impl View for ColumnPackEntry {
    type V = EntryView;

    open spec fn view(&self) -> EntryView {
        (self.id@, self.sphere@, self.system_prompt@, self.level)
    }
}

/// The sphere a lower-cased, trimmed name denotes.
pub open spec fn sphere_named(name: Seq<char>) -> Option<DomainSphere> {
    if name == "physics"@ {
        Some(DomainSphere::Physics)
    } else if name == "mathematics"@ || name == "math"@ || name == "maths"@ {
        Some(DomainSphere::Mathematics)
    } else if name == "coding"@ || name == "code"@ {
        Some(DomainSphere::Coding)
    } else if name == "psychology"@ || name == "psych"@ {
        Some(DomainSphere::Psychology)
    } else {
        None
    }
}

/// Parsing a sphere name: trimmed and ASCII-lower-cased, then matched; an
/// unknown name is refused with a message naming it and the accepted
/// values.
pub open spec fn sphere_result(raw: Seq<char>) -> Result<DomainSphere, Seq<char>> {
    let name = ascii_lowercase(trim_seq(raw));
    match sphere_named(name) {
        Some(s) => Ok(s),
        None => Err("unknown sphere `"@ + name + "` (expected Physics | Mathematics | Coding | Psychology)"@),
    }
}

/// Every canonical sphere name is accepted, in any ASCII case and with any
/// surrounding whitespace: a name that trims and lower-cases to `physics`,
/// `mathematics`, `coding` or `psychology` parses to that sphere.
pub proof fn law_canonical_sphere_names(raw: Seq<char>)
    ensures
        ascii_lowercase(trim_seq(raw)) == "physics"@ ==> sphere_result(raw) == Ok::<DomainSphere, Seq<char>>(
            DomainSphere::Physics,
        ),
        ascii_lowercase(trim_seq(raw)) == "mathematics"@ ==> sphere_result(raw) == Ok::<DomainSphere, Seq<char>>(
            DomainSphere::Mathematics,
        ),
        ascii_lowercase(trim_seq(raw)) == "coding"@ ==> sphere_result(raw) == Ok::<DomainSphere, Seq<char>>(
            DomainSphere::Coding,
        ),
        ascii_lowercase(trim_seq(raw)) == "psychology"@ ==> sphere_result(raw) == Ok::<DomainSphere, Seq<char>>(
            DomainSphere::Psychology,
        ),
{
    reveal_strlit("physics");
    reveal_strlit("mathematics");
    reveal_strlit("math");
    reveal_strlit("maths");
    reveal_strlit("coding");
    reveal_strlit("code");
    reveal_strlit("psychology");
    reveal_strlit("psych");
    let name = ascii_lowercase(trim_seq(raw));
    if name == "mathematics"@ {
        assert(name.len() == 11);
        assert(name != "physics"@);
    }
    if name == "coding"@ {
        assert(name.len() == 6);
        assert(name != "physics"@);
        assert(name != "mathematics"@ && name != "maths"@);
        assert(name[0] == 'c');
        assert(name != "math"@) by {
            assert("math"@[0] == 'm');
        }
    }
    if name == "psychology"@ {
        assert(name.len() == 10);
        assert(name != "physics"@ && name != "mathematics"@ && name != "math"@ && name != "maths"@);
        assert(name != "coding"@ && name != "code"@);
    }
}

proof fn lemma_lowercase_physics()
    ensures
        ascii_lowercase("Physics"@) == "physics"@,
        !is_ws("Physics"@[0]) && !is_ws("Physics"@.last()),
{
    reveal_strlit("Physics");
    reveal_strlit("physics");
    assert(ascii_lowercase("Physics"@) =~= "physics"@);
}

proof fn lemma_lowercase_mathematics()
    ensures
        ascii_lowercase("Mathematics"@) == "mathematics"@,
        !is_ws("Mathematics"@[0]) && !is_ws("Mathematics"@.last()),
{
    reveal_strlit("Mathematics");
    reveal_strlit("mathematics");
    assert(ascii_lowercase("Mathematics"@) =~= "mathematics"@);
}

proof fn lemma_lowercase_coding()
    ensures
        ascii_lowercase("Coding"@) == "coding"@,
        !is_ws("Coding"@[0]) && !is_ws("Coding"@.last()),
{
    reveal_strlit("Coding");
    reveal_strlit("coding");
    assert(ascii_lowercase("Coding"@) =~= "coding"@);
}

proof fn lemma_lowercase_psychology()
    ensures
        ascii_lowercase("Psychology"@) == "psychology"@,
        !is_ws("Psychology"@[0]) && !is_ws("Psychology"@.last()),
{
    reveal_strlit("Psychology");
    reveal_strlit("psychology");
    assert(ascii_lowercase("Psychology"@) =~= "psychology"@);
}

/// Every sphere's own name parses back to that sphere.
pub proof fn law_sphere_name_round_trip(s: DomainSphere)
    ensures
        sphere_result(sphere_name(s)) == Ok::<DomainSphere, Seq<char>>(s),
{
    let raw = sphere_name(s);
    match s {
        DomainSphere::Physics => lemma_lowercase_physics(),
        DomainSphere::Mathematics => lemma_lowercase_mathematics(),
        DomainSphere::Coding => lemma_lowercase_coding(),
        DomainSphere::Psychology => lemma_lowercase_psychology(),
    }
    assert(trim_start_seq(raw) == raw);
    assert(trim_end_seq(raw) == raw);
    law_canonical_sphere_names(raw);
}

fn chars_eq_str(v: &Vec<char>, s: &str) -> (r: bool)
    ensures
        r == (v@ == s@),
{
    let w = chars_of(s);
    if v.len() != w.len() {
        return false;
    }
    let mut i: usize = 0;
    while i < v.len()
        invariant
            0 <= i <= v@.len(),
            v@.len() == w@.len(),
            w@ == s@,
            forall|j: int| 0 <= j < i ==> v@[j] == w@[j],
        decreases v@.len() - i,
    {
        if v[i] != w[i] {
            return false;
        }
        i = i + 1;
    }
    assert(v@ =~= w@);
    true
}

/// Map a sphere name to a [`DomainSphere`], case-insensitively.
pub fn parse_sphere(raw: &str) -> (r: Result<DomainSphere, String>)
    ensures
        match r {
            Ok(s) => sphere_result(raw@) == Ok::<DomainSphere, Seq<char>>(s),
            Err(m) => sphere_result(raw@) == Err::<DomainSphere, Seq<char>>(m@),
        },
{
    let v = chars_of(raw);
    let t = trim_chars(&v);
    let name = to_ascii_lowercase(&t);
    if chars_eq_str(&name, "physics") {
        Ok(DomainSphere::Physics)
    } else if chars_eq_str(&name, "mathematics") || chars_eq_str(&name, "math") || chars_eq_str(&name, "maths") {
        Ok(DomainSphere::Mathematics)
    } else if chars_eq_str(&name, "coding") || chars_eq_str(&name, "code") {
        Ok(DomainSphere::Coding)
    } else if chars_eq_str(&name, "psychology") || chars_eq_str(&name, "psych") {
        Ok(DomainSphere::Psychology)
    } else {
        let mut m: Vec<char> = Vec::new();
        push_str(&mut m, "unknown sphere `");
        push_chars(&mut m, &name);
        push_str(&mut m, "` (expected Physics | Mathematics | Coding | Psychology)");
        Err(string_of(&m))
    }
}

/// A materialized pack column with its level.
pub type PackedView = (ColumnView, Option<u8>);

/// Materializing the first `m` entries: each id is trimmed and must be
/// non-blank and new, each prompt must be non-blank, each sphere must
/// parse; the first violation, in entry order and in that order within an
/// entry, is reported.
pub open spec fn pack_prefix(entries: Seq<EntryView>, m: int) -> Result<Seq<PackedView>, Seq<char>>
    decreases m,
{
    if m <= 0 {
        Ok(Seq::empty())
    } else {
        match pack_prefix(entries, m - 1) {
            Err(e) => Err(e),
            Ok(done) => {
                let (raw_id, sphere, prompt, level) = entries[m - 1];
                let id = trim_seq(raw_id);
                if id.len() == 0 {
                    Err("a column has a blank id"@)
                } else if exists|j: int| 0 <= j < done.len() && (#[trigger] done[j]).0.id == id {
                    Err("duplicate column id: "@ + id)
                } else if trim_seq(prompt).len() == 0 {
                    Err("column "@ + id + " has a blank system_prompt"@)
                } else {
                    match sphere_result(sphere) {
                        Err(e) => Err(e),
                        Ok(s) => Ok(done.push((fresh_column(id, s, prompt), level))),
                    }
                }
            },
        }
    }
}

/// Materializing a pack: an empty pack is refused, otherwise every entry
/// in order.
pub open spec fn pack_result(entries: Seq<EntryView>) -> Result<Seq<PackedView>, Seq<char>> {
    if entries.len() == 0 {
        Err("column pack has no [[columns]] entries"@)
    } else {
        pack_prefix(entries, entries.len() as int)
    }
}

/// The views of materialized pack columns.
pub open spec fn packed_view(v: Seq<(CorticalColumn, Option<u8>)>) -> Seq<PackedView> {
    v.map_values(|p: (CorticalColumn, Option<u8>)| (p.0@, p.1))
}

/// The views of pack entries.
pub open spec fn entries_view(v: Seq<ColumnPackEntry>) -> Seq<EntryView> {
    v.map_values(|e: ColumnPackEntry| e@)
}

proof fn lemma_pack_prefix_err(entries: Seq<EntryView>, m: int, n: int)
    requires
        0 <= m <= n,
        pack_prefix(entries, m) is Err,
    ensures
        pack_prefix(entries, n) == pack_prefix(entries, m),
    decreases n - m,
{
    if n > m {
        lemma_pack_prefix_err(entries, m, n - 1);
    }
}

/// Validate and materialize a pack into `(column, level)` pairs, in
/// document order.
pub fn materialize_pack(pack: ColumnPack) -> (r: Result<Vec<(CorticalColumn, Option<u8>)>, String>)
    ensures
        match r {
            Ok(v) => pack_result(entries_view(pack.columns@)) == Ok::<Seq<PackedView>, Seq<char>>(packed_view(v@)),
            Err(m) => pack_result(entries_view(pack.columns@)) == Err::<Seq<PackedView>, Seq<char>>(m@),
        },
{
    let ghost ev = entries_view(pack.columns@);
    if pack.columns.len() == 0 {
        return Err(string_of(&chars_of("column pack has no [[columns]] entries")));
    }
    let entries = &pack.columns;
    let mut out: Vec<(CorticalColumn, Option<u8>)> = Vec::new();
    let mut seen: Vec<Vec<char>> = Vec::new();
    let mut j: usize = 0;
    assert(packed_view(out@) =~= Seq::<PackedView>::empty());
    while j < entries.len()
        invariant
            0 <= j <= entries@.len(),
            ev == entries_view(entries@),
            ev == entries_view(pack.columns@),
            ev.len() > 0,
            pack_prefix(ev, j as int) == Ok::<Seq<PackedView>, Seq<char>>(packed_view(out@)),
            seen@.len() == out@.len(),
            forall|k: int| 0 <= k < seen@.len() ==> (#[trigger] seen@[k])@ == out@[k].0@.id,
        decreases entries@.len() - j,
    {
        let e = &entries[j];
        assert(ev[j as int] == e@);
        let raw = chars_of(e.id.as_str());
        let id = trim_chars(&raw);
        let ghost done = packed_view(out@);
        assert(id@ == trim_seq(ev[j as int].0));
        if id.len() == 0 {
            proof {
                assert(pack_prefix(ev, j + 1) == Err::<Seq<PackedView>, Seq<char>>("a column has a blank id"@));
                lemma_pack_prefix_err(ev, j + 1, ev.len() as int);
            }
            return Err(string_of(&chars_of("a column has a blank id")));
        }
        // Duplicate check against the ids already accepted.
        let mut k: usize = 0;
        while k < seen.len()
            invariant
                0 <= k <= seen@.len(),
                0 <= j < entries@.len(),
                ev == entries_view(entries@),
                ev == entries_view(pack.columns@),
                ev.len() > 0,
                ev[j as int] == e@,
                id@ == trim_seq(ev[j as int].0),
                id@.len() > 0,
                pack_prefix(ev, j as int) == Ok::<Seq<PackedView>, Seq<char>>(packed_view(out@)),
                seen@.len() == out@.len(),
                done == packed_view(out@),
                forall|t: int| 0 <= t < seen@.len() ==> (#[trigger] seen@[t])@ == out@[t].0@.id,
                forall|t: int| 0 <= t < k ==> done[t].0.id != id@,
            decreases seen@.len() - k,
        {
            if chars_eq(&seen[k], &id) {
                proof {
                    assert(done[k as int].0.id == id@);
                }
                let mut m: Vec<char> = Vec::new();
                push_str(&mut m, "duplicate column id: ");
                push_chars(&mut m, &id);
                proof {
                    assert(pack_prefix(ev, j + 1) == Err::<Seq<PackedView>, Seq<char>>(m@));
                    lemma_pack_prefix_err(ev, j + 1, ev.len() as int);
                }
                return Err(string_of(&m));
            }
            k = k + 1;
        }
        assert(!(exists|t: int| 0 <= t < done.len() && (#[trigger] done[t]).0.id == id@));
        if is_blank(e.system_prompt.as_str()) {
            let mut m: Vec<char> = Vec::new();
            push_str(&mut m, "column ");
            push_chars(&mut m, &id);
            push_str(&mut m, " has a blank system_prompt");
            proof {
                assert(pack_prefix(ev, j + 1) == Err::<Seq<PackedView>, Seq<char>>(m@));
                lemma_pack_prefix_err(ev, j + 1, ev.len() as int);
            }
            return Err(string_of(&m));
        }
        let sphere = match parse_sphere(e.sphere.as_str()) {
            Ok(s) => s,
            Err(msg) => {
                proof {
                    assert(pack_prefix(ev, j + 1) == Err::<Seq<PackedView>, Seq<char>>(msg@));
                    lemma_pack_prefix_err(ev, j + 1, ev.len() as int);
                }
                return Err(msg);
            },
        };
        let id_s = string_of(&id);
        let col = CorticalColumn::new(id_s.as_str(), sphere, e.system_prompt.as_str());
        let ghost before = out@;
        out.push((col, e.level));
        seen.push(id);
        proof {
            assert(packed_view(out@) =~= packed_view(before).push((fresh_column(id@, sphere, e.system_prompt@), e.level)));
        }
        j = j + 1;
    }
    assert(ev.len() == entries@.len());
    Ok(out)
}

fn chars_eq(a: &Vec<char>, b: &Vec<char>) -> (r: bool)
    ensures
        r == (a@ == b@),
{
    if a.len() != b.len() {
        return false;
    }
    let mut i: usize = 0;
    while i < a.len()
        invariant
            0 <= i <= a@.len(),
            a@.len() == b@.len(),
            forall|j: int| 0 <= j < i ==> a@[j] == b@[j],
        decreases a@.len() - i,
    {
        if a[i] != b[i] {
            return false;
        }
        i = i + 1;
    }
    assert(a@ =~= b@);
    true
}

/// A materialized pack has non-empty, pairwise distinct ids and non-blank
/// prompts.
pub proof fn law_pack_ids_distinct(entries: Seq<EntryView>, m: int)
    requires
        pack_prefix(entries, m) is Ok,
    ensures
        ({
            let done = pack_prefix(entries, m)->Ok_0;
            &&& forall|a: int, b: int| 0 <= a < b < done.len() ==> done[a].0.id != done[b].0.id
            &&& forall|a: int| 0 <= a < done.len() ==> (#[trigger] done[a]).0.id.len() > 0
            &&& forall|a: int| 0 <= a < done.len() ==> trim_seq((#[trigger] done[a]).0.system_prompt).len() > 0
        }),
    decreases m,
{
    if m > 0 {
        law_pack_ids_distinct(entries, m - 1);
        let done = pack_prefix(entries, m - 1)->Ok_0;
        let (raw_id, sphere, prompt, level) = entries[m - 1];
        let id = trim_seq(raw_id);
        let now = pack_prefix(entries, m)->Ok_0;
        assert forall|a: int, b: int| 0 <= a < b < now.len() implies now[a].0.id != now[b].0.id by {
            if b == now.len() - 1 {
                assert(now[a] == done[a]);
                assert(!(0 <= a < done.len() && (#[trigger] done[a]).0.id == id));
            } else {
                assert(now[a] == done[a] && now[b] == done[b]);
            }
        }
        assert forall|a: int| 0 <= a < now.len() implies (#[trigger] now[a]).0.id.len() > 0 && trim_seq(
            now[a].0.system_prompt,
        ).len() > 0 by {
            if a < done.len() {
                assert(now[a] == done[a]);
            }
        }
    }
}

} // verus!
