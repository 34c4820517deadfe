//! Orders used for deterministic processing: lexicographic order on text
//! (the order of `String`'s `Ord`, which compares code points), and the
//! routing rank "higher confidence first, ties broken by id ascending".
use vstd::prelude::*;

use crate::text::chars_of;
use crate::topology::{count_true, lemma_count_all_false, lemma_count_all_true, lemma_count_update};

verus! {

/// Lexicographic "less than" on character sequences, comparing code points
/// (the order `str`'s `Ord` gives, since UTF-8 preserves code-point order).
pub open spec fn seq_lt(a: Seq<char>, b: Seq<char>) -> bool
    decreases a.len(),
{
    if a.len() == 0 {
        b.len() > 0
    } else if b.len() == 0 {
        false
    } else if a[0] != b[0] {
        (a[0] as int) < (b[0] as int)
    } else {
        seq_lt(a.drop_first(), b.drop_first())
    }
}

pub proof fn lemma_seq_lt_irreflexive(a: Seq<char>)
    ensures
        !seq_lt(a, a),
    decreases a.len(),
{
    if a.len() > 0 {
        lemma_seq_lt_irreflexive(a.drop_first());
    }
}

pub proof fn lemma_seq_lt_asymmetric(a: Seq<char>, b: Seq<char>)
    ensures
        seq_lt(a, b) ==> !seq_lt(b, a),
    decreases a.len(),
{
    if a.len() > 0 && b.len() > 0 && a[0] == b[0] {
        lemma_seq_lt_asymmetric(a.drop_first(), b.drop_first());
    }
}

pub proof fn lemma_seq_lt_transitive(a: Seq<char>, b: Seq<char>, c: Seq<char>)
    ensures
        seq_lt(a, b) && seq_lt(b, c) ==> seq_lt(a, c),
    decreases a.len(),
{
    if a.len() > 0 && b.len() > 0 && c.len() > 0 {
        lemma_seq_lt_transitive(a.drop_first(), b.drop_first(), c.drop_first());
    }
}

pub proof fn lemma_seq_lt_total(a: Seq<char>, b: Seq<char>)
    ensures
        a != b ==> seq_lt(a, b) || seq_lt(b, a),
    decreases a.len(),
{
    if a.len() > 0 && b.len() > 0 {
        if a[0] == b[0] {
            lemma_seq_lt_total(a.drop_first(), b.drop_first());
            if a.drop_first() == b.drop_first() {
                assert(a =~= seq![a[0]] + a.drop_first());
                assert(b =~= seq![b[0]] + b.drop_first());
            }
        } else {
            assert((a[0] as int) != (b[0] as int));
        }
    } else if a.len() == 0 && b.len() == 0 {
        assert(a =~= b);
    }
}

/// Whether `a` sorts before `b`.
pub fn chars_lt(a: &Vec<char>, b: &Vec<char>) -> (r: bool)
    ensures
        r == seq_lt(a@, b@),
{
    let mut i: usize = 0;
    assert(a@.skip(0) =~= a@);
    assert(b@.skip(0) =~= b@);
    while i < a.len() && i < b.len() && a[i] == b[i]
        invariant
            0 <= i <= a@.len(),
            i <= b@.len(),
            seq_lt(a@, b@) == seq_lt(a@.skip(i as int), b@.skip(i as int)),
        decreases a@.len() - i,
    {
        assert(a@.skip(i as int).drop_first() =~= a@.skip(i + 1));
        assert(b@.skip(i as int).drop_first() =~= b@.skip(i + 1));
        i = i + 1;
    }
    if i == a.len() {
        assert(a@.skip(i as int) =~= Seq::<char>::empty());
        i < b.len()
    } else if i == b.len() {
        assert(b@.skip(i as int) =~= Seq::<char>::empty());
        false
    } else {
        assert(a@.skip(i as int)[0] == a@[i as int]);
        assert(b@.skip(i as int)[0] == b@[i as int]);
        a[i] < b[i]
    }
}

/// Whether `a` sorts before `b`.
pub fn str_lt(a: &str, b: &str) -> (r: bool)
    ensures
        r == seq_lt(a@, b@),
{
    let av = chars_of(a);
    let bv = chars_of(b);
    chars_lt(&av, &bv)
}

/// Routing rank: higher confidence key first, ties broken by id ascending.
pub open spec fn rank_before(ka: u32, ia: Seq<char>, kb: u32, ib: Seq<char>) -> bool {
    ka > kb || (ka == kb && seq_lt(ia, ib))
}

/// The rank of item `x` of a keyed list precedes that of item `y`.
pub open spec fn item_before(keys: Seq<u32>, ids: Seq<Seq<char>>, x: int, y: int) -> bool {
    rank_before(keys[x], ids[x], keys[y], ids[y])
}

/// `idx` lists the `min(k, len)` best-ranked items of a keyed list, best
/// first: distinct in-range positions, strictly ordered by rank, and every
/// item left out ranks after every item listed.
pub open spec fn ranked_prefix(keys: Seq<u32>, ids: Seq<Seq<char>>, k: int, idx: Seq<usize>) -> bool {
    let m = keys.len() as int;
    &&& idx.len() == if k < m { k } else { m }
    &&& forall|j: int| 0 <= j < idx.len() ==> (#[trigger] idx[j]) < m
    &&& forall|j: int, l: int| 0 <= j < l < idx.len() ==> item_before(keys, ids, #[trigger] idx[j] as int, #[trigger] idx[l] as int)
    &&& forall|j: int, u: int|
        0 <= j < idx.len() && 0 <= u < m && !idx.contains(u as usize) ==> #[trigger] item_before(
            keys,
            ids,
            idx[j] as int,
            u,
        )
}

/// Positions of the `min(k, len)` best-ranked items, best first
/// (selection by repeated minimum).
pub fn select_ranked(keys: &Vec<u32>, ids: &Vec<Vec<char>>, k: usize) -> (idx: Vec<usize>)
    requires
        keys@.len() == ids@.len(),
        forall|a: int, b: int| 0 <= a < b < ids@.len() ==> ids@[a]@ != ids@[b]@,
    ensures
        ranked_prefix(keys@, ids@.map_values(|v: Vec<char>| v@), k as int, idx@),
{
    let ghost iv = ids@.map_values(|v: Vec<char>| v@);
    let m = keys.len();
    let mut used: Vec<bool> = Vec::new();
    let mut t: usize = 0;
    while t < m
        invariant
            0 <= t <= m,
            used@ == Seq::new(t as nat, |x: int| false),
        decreases m - t,
    {
        used.push(false);
        t = t + 1;
        assert(used@ =~= Seq::new(t as nat, |x: int| false));
    }
    let mut idx: Vec<usize> = Vec::new();
    proof {
        lemma_count_all_false(m as int, m as int);
    }
    while idx.len() < k && idx.len() < m
        invariant
            m == keys@.len() == ids@.len() == used@.len(),
            count_true(used@) == idx@.len(),
            idx@.len() <= k,
            iv == ids@.map_values(|v: Vec<char>| v@),
            forall|a: int, b: int| 0 <= a < b < ids@.len() ==> ids@[a]@ != ids@[b]@,
            idx@.len() <= m,
            forall|u: int| 0 <= u < m ==> (used@[u] <==> idx@.contains(u as usize)),
            forall|j: int| 0 <= j < idx@.len() ==> (#[trigger] idx@[j]) < m,
            forall|j: int, l: int| 0 <= j < l < idx@.len() ==> item_before(keys@, iv, #[trigger] idx@[j] as int, #[trigger] idx@[l] as int),
            forall|j: int, u: int|
                0 <= j < idx@.len() && 0 <= u < m && !idx@.contains(u as usize) ==> #[trigger] item_before(
                    keys@,
                    iv,
                    idx@[j] as int,
                    u,
                ),
        decreases m - idx@.len(),
    {
        // Count of unused items is m - idx.len() > 0; find the best unused.
        let mut best: usize = m;
        let mut u: usize = 0;
        while u < m
            invariant
                m == keys@.len() == ids@.len() == used@.len(),
                iv == ids@.map_values(|v: Vec<char>| v@),
                0 <= u <= m,
                forall|a: int, b: int| 0 <= a < b < ids@.len() ==> ids@[a]@ != ids@[b]@,
                best == m || (best < u && !used@[best as int]),
                forall|x: int| 0 <= x < u && !used@[x] ==> x == best || item_before(keys@, iv, best as int, x),
                best == m ==> forall|x: int| 0 <= x < u ==> used@[x],
            decreases m - u,
        {
            if !used[u] {
                if best == m {
                    best = u;
                } else {
                    let better = keys[u] > keys[best] || (keys[u] == keys[best] && chars_lt(
                        &ids[u],
                        &ids[best],
                    ));
                    if better {
                        proof {
                            assert forall|x: int| 0 <= x < u && !used@[x] implies x == u || item_before(
                                keys@,
                                iv,
                                u as int,
                                x,
                            ) by {
                                if x != best {
                                    lemma_seq_lt_transitive(iv[u as int], iv[best as int], iv[x]);
                                }
                            }
                        }
                        best = u;
                    } else {
                        proof {
                            assert(ids@[u as int]@ != ids@[best as int]@);
                            lemma_seq_lt_total(iv[u as int], iv[best as int]);
                        }
                    }
                }
            }
            u = u + 1;
        }
        proof {
            if best == m {
                // Every item would be used, so used would count m trues.
                lemma_count_all_true(used@, m as int);
                assert(false);
            }
            lemma_count_update(used@, best as int, true);
        }
        let ghost old_idx = idx@;
        let ghost old_used = used@;
        idx.push(best);
        used.set(best, true);
        proof {
            assert forall|u: int| 0 <= u < m implies (used@[u] <==> idx@.contains(u as usize)) by {
                if u == best {
                    assert(idx@[old_idx.len() as int] == best);
                } else {
                    if idx@.contains(u as usize) {
                        let j = choose|j: int| 0 <= j < idx@.len() && idx@[j] == u as usize;
                        assert(j < old_idx.len());
                        assert(old_idx.contains(u as usize));
                    }
                    if old_idx.contains(u as usize) {
                        let j = choose|j: int| 0 <= j < old_idx.len() && old_idx[j] == u as usize;
                        assert(idx@[j] == u as usize);
                    }
                }
            }
            assert forall|j: int, l: int| 0 <= j < l < idx@.len() implies item_before(
                keys@,
                iv,
                #[trigger] idx@[j] as int,
                #[trigger] idx@[l] as int,
            ) by {
                if l == old_idx.len() {
                    assert(!used@[best as int] || true);
                    assert(!old_idx.contains(best));
                    assert(idx@[j] == old_idx[j]);
                }
            }
            assert forall|j: int, u: int|
                0 <= j < idx@.len() && 0 <= u < m && !idx@.contains(u as usize) implies #[trigger] item_before(
                keys@,
                iv,
                idx@[j] as int,
                u,
            ) by {
                assert(!old_idx.contains(u as usize)) by {
                    if old_idx.contains(u as usize) {
                        let jj = choose|jj: int| 0 <= jj < old_idx.len() && old_idx[jj] == u as usize;
                        assert(idx@[jj] == u as usize);
                    }
                }
                assert(!old_used[u]);
                if j == old_idx.len() {
                    assert(idx@[old_idx.len() as int] == best);
                    assert(idx@.contains(best));
                    assert(u != best);
                } else {
                    assert(idx@[j] == old_idx[j]);
                    assert(item_before(keys@, iv, old_idx[j] as int, u));
                }
            }
        }
    }
    idx
}

/// `m` distinct positions below `m` are all the positions below `m`.
pub proof fn lemma_full_cover(idx: Seq<usize>, m: int)
    requires
        idx.len() == m,
        forall|j: int| 0 <= j < m ==> (#[trigger] idx[j]) < m,
        forall|j: int, l: int| 0 <= j < l < m ==> idx[j] != idx[l],
    ensures
        forall|u: usize| u < m ==> #[trigger] idx.contains(u),
{
    let s = idx.map_values(|x: usize| x as int);
    assert(s.no_duplicates()) by {
        assert forall|i: int, j: int| 0 <= i < s.len() && 0 <= j < s.len() && i != j implies s[i] != s[j] by {
            if i < j {
                assert(idx[i] != idx[j]);
            } else {
                assert(idx[j] != idx[i]);
            }
        }
    }
    s.unique_seq_to_set();
    vstd::set_lib::lemma_int_range(0, m);
    let r = vstd::set_lib::set_int_range(0, m);
    assert(s.to_set().subset_of(r)) by {
        assert forall|x: int| s.to_set().contains(x) implies r.contains(x) by {
            let j = choose|j: int| 0 <= j < s.len() && s[j] == x;
            assert(idx[j] < m);
        }
    }
    vstd::set_lib::lemma_len_subset(s.to_set(), r);
    vstd::set_lib::lemma_subset_equality(s.to_set(), r);
    assert forall|u: usize| u < m implies #[trigger] idx.contains(u) by {
        assert(r.contains(u as int));
        assert(s.to_set().contains(u as int));
        let j = choose|j: int| 0 <= j < s.len() && s[j] == u as int;
        assert(idx[j] == u);
    }
}

} // verus!
