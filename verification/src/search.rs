//! The top-k search engine: a query's n-grams are looked up in the table,
//! candidate keys are enumerated through the inverted index, each
//! candidate's weighted Jaccard overlap with the query is computed
//! exactly as a ratio of machine words, and the best k hits come back in
//! descending score order, ties broken by ascending key id.

use vstd::prelude::*;

verus! {

use crate::corpus::{key_pairs, Corpus};
use crate::grams::{counts, GramCount, pairs_sorted, lex_lt};
use crate::table::{table_contains, table_sorted};

/// An exact similarity: the weighted Jaccard overlap as a ratio.
#[derive(Clone, Copy, Debug, PartialEq, Eq, Structural)]
pub struct Score {
    /// Numerator: the shared weight.
    pub num: usize,
    /// Denominator: both sides' weight minus the shared weight.
    pub den: usize,
}

impl Score {
    /// A ratio with the given parts.
    pub fn new(num: usize, den: usize) -> (s: Score)
        ensures
            s == (Score { num, den }),
    {
        Score { num, den }
    }
}

/// Strict order on ratios, by cross-multiplication.
pub open spec fn score_lt(a: Score, b: Score) -> bool {
    (a.num as int) * (b.den as int) < (b.num as int) * (a.den as int)
}

/// Equality of ratios as values.
pub open spec fn score_eqv(a: Score, b: Score) -> bool {
    (a.num as int) * (b.den as int) == (b.num as int) * (a.den as int)
}

/// Three-way comparison of two ratios.
pub fn score_cmp(a: &Score, b: &Score) -> (o: i32)
    ensures
        (o < 0) == score_lt(*a, *b),
        (o == 0) == score_eqv(*a, *b),
        (o > 0) == score_lt(*b, *a),
{
    proof {
        assert((a.num as u128) * (b.den as u128) <= u128::MAX && (b.num as u128) * (
        a.den as u128) <= u128::MAX) by (nonlinear_arith)
            requires
                a.num <= u64::MAX && a.den <= u64::MAX && b.num <= u64::MAX && b.den <= u64::MAX,
        ;
    }
    let x = (a.num as u128) * (b.den as u128);
    let y = (b.num as u128) * (a.den as u128);
    if x < y {
        -1
    } else if x == y {
        0
    } else {
        1
    }
}

/// With positive denominators the strict order is transitive.
pub proof fn lemma_score_lt_trans(a: Score, b: Score, c: Score)
    requires
        a.den >= 1,
        b.den >= 1,
        c.den >= 1,
        score_lt(a, b),
        score_lt(b, c),
    ensures
        score_lt(a, c),
{
    let an = a.num as int;
    let ad = a.den as int;
    let bn = b.num as int;
    let bd = b.den as int;
    let cn = c.num as int;
    let cd = c.den as int;
    assert(an * cd < cn * ad) by (nonlinear_arith)
        requires
            an * bd < bn * ad,
            bn * cd < cn * bd,
            ad >= 1,
            bd >= 1,
            cd >= 1,
            an >= 0,
            bn >= 0,
            cn >= 0,
    ;
}

/// Equal ratios can replace one another on either side of the order.
pub proof fn lemma_score_eqv_lt(a: Score, b: Score, c: Score)
    requires
        a.den >= 1,
        b.den >= 1,
        c.den >= 1,
    ensures
        score_eqv(a, b) && score_lt(b, c) ==> score_lt(a, c),
        score_lt(a, b) && score_eqv(b, c) ==> score_lt(a, c),
        score_eqv(a, b) && score_eqv(b, c) ==> score_eqv(a, c),
{
    let an = a.num as int;
    let ad = a.den as int;
    let bn = b.num as int;
    let bd = b.den as int;
    let cn = c.num as int;
    let cd = c.den as int;
    if score_eqv(a, b) && score_lt(b, c) {
        assert(an * cd < cn * ad) by (nonlinear_arith)
            requires
                an * bd == bn * ad,
                bn * cd < cn * bd,
                ad >= 1,
                bd >= 1,
                cd >= 1,
        ;
    }
    if score_lt(a, b) && score_eqv(b, c) {
        assert(an * cd < cn * ad) by (nonlinear_arith)
            requires
                an * bd < bn * ad,
                bn * cd == cn * bd,
                ad >= 1,
                bd >= 1,
                cd >= 1,
        ;
    }
    if score_eqv(a, b) && score_eqv(b, c) {
        assert(an * cd == cn * ad) by (nonlinear_arith)
            requires
                an * bd == bn * ad,
                bn * cd == cn * bd,
                ad >= 1,
                bd >= 1,
                cd >= 1,
        ;
    }
}

// ===================== overlap =====================

/// Sum of counts in an id-count list.
pub open spec fn id_total(q: Seq<(usize, usize)>) -> int
    decreases q.len(),
{
    if q.len() == 0 {
        0
    } else {
        q[0].1 + id_total(q.drop_first())
    }
}

/// The shared weight of two id-sorted count lists: the sum of the
/// smaller count over ids occurring in both.
pub open spec fn overlap_sum(q: Seq<(usize, usize)>, c: Seq<(usize, usize)>) -> int
    decreases q.len() + c.len(),
{
    if q.len() == 0 || c.len() == 0 {
        0
    } else if q[0].0 == c[0].0 {
        (if q[0].1 <= c[0].1 {
            q[0].1 as int
        } else {
            c[0].1 as int
        }) + overlap_sum(q.drop_first(), c.drop_first())
    } else if q[0].0 < c[0].0 {
        overlap_sum(q.drop_first(), c)
    } else {
        overlap_sum(q, c.drop_first())
    }
}

/// Totals are never negative.
pub proof fn lemma_id_total_nonneg(q: Seq<(usize, usize)>)
    ensures
        id_total(q) >= 0,
    decreases q.len(),
{
    if q.len() > 0 {
        lemma_id_total_nonneg(q.drop_first());
    }
}

/// The shared weight is bounded by either side's total.
pub proof fn lemma_overlap_le(q: Seq<(usize, usize)>, c: Seq<(usize, usize)>)
    ensures
        0 <= overlap_sum(q, c) <= id_total(q),
        overlap_sum(q, c) <= id_total(c),
    decreases q.len() + c.len(),
{
    lemma_id_total_nonneg(q);
    lemma_id_total_nonneg(c);
    if q.len() == 0 || c.len() == 0 {
    } else if q[0].0 == c[0].0 {
        lemma_overlap_le(q.drop_first(), c.drop_first());
        lemma_id_total_nonneg(q.drop_first());
        lemma_id_total_nonneg(c.drop_first());
    } else if q[0].0 < c[0].0 {
        lemma_overlap_le(q.drop_first(), c);
        lemma_id_total_nonneg(q.drop_first());
    } else {
        lemma_overlap_le(q, c.drop_first());
        lemma_id_total_nonneg(c.drop_first());
    }
}

/// With positive counts and sorted ids, the shared weight is positive
/// exactly when some id occurs on both sides.
pub proof fn lemma_overlap_pos(q: Seq<(usize, usize)>, c: Seq<(usize, usize)>)
    requires
        forall|i: int| #![trigger q[i]] 0 <= i < q.len() - 1 ==> q[i].0 < q[i + 1].0,
        forall|i: int| #![trigger c[i]] 0 <= i < c.len() - 1 ==> c[i].0 < c[i + 1].0,
        forall|i: int| 0 <= i < q.len() ==> (#[trigger] q[i]).1 >= 1,
        forall|i: int| 0 <= i < c.len() ==> (#[trigger] c[i]).1 >= 1,
    ensures
        (overlap_sum(q, c) > 0) == (exists|i: int, j: int|
            0 <= i < q.len() && 0 <= j < c.len() && (#[trigger] q[i]).0 == (#[trigger] c[j]).0),
    decreases q.len() + c.len(),
{
    if q.len() == 0 || c.len() == 0 {
    } else {
        let qt = q.drop_first();
        let ct = c.drop_first();
        assert forall|i: int| #![trigger qt[i]] 0 <= i < qt.len() - 1 implies qt[i].0 < qt[i
            + 1].0 by {
            assert(q[i + 1].0 < q[i + 2].0);
        }
        assert forall|i: int| #![trigger ct[i]] 0 <= i < ct.len() - 1 implies ct[i].0 < ct[i
            + 1].0 by {
            assert(c[i + 1].0 < c[i + 2].0);
        }
        assert(forall|i: int| 0 <= i < qt.len() ==> (#[trigger] qt[i]).1 >= 1) by {
            assert forall|i: int| 0 <= i < qt.len() implies (#[trigger] qt[i]).1 >= 1 by {
                assert(q[i + 1].1 >= 1);
            }
        }
        assert(forall|i: int| 0 <= i < ct.len() ==> (#[trigger] ct[i]).1 >= 1) by {
            assert forall|i: int| 0 <= i < ct.len() implies (#[trigger] ct[i]).1 >= 1 by {
                assert(c[i + 1].1 >= 1);
            }
        }
        if q[0].0 == c[0].0 {
            lemma_overlap_le(qt, ct);
            assert(overlap_sum(q, c) > 0);
            assert(q[0].0 == c[0].0);
        } else if q[0].0 < c[0].0 {
            lemma_overlap_pos(qt, c);
            if overlap_sum(q, c) > 0 {
                let (i, j) = choose|i: int, j: int|
                    0 <= i < qt.len() && 0 <= j < c.len() && (#[trigger] qt[i]).0 == (
                    #[trigger] c[j]).0;
                assert(q[i + 1].0 == c[j].0);
            }
            if exists|i: int, j: int|
                0 <= i < q.len() && 0 <= j < c.len() && (#[trigger] q[i]).0 == (
                #[trigger] c[j]).0 {
                let (i, j) = choose|i: int, j: int|
                    0 <= i < q.len() && 0 <= j < c.len() && (#[trigger] q[i]).0 == (
                    #[trigger] c[j]).0;
                if i == 0 {
                    if j > 0 {
                        lemma_id_seg_pair(c, 0, j);
                        assert(false);
                    }
                    assert(false);
                } else {
                    assert(qt[i - 1].0 == c[j].0);
                }
            }
        } else {
            lemma_overlap_pos(q, ct);
            if overlap_sum(q, c) > 0 {
                let (i, j) = choose|i: int, j: int|
                    0 <= i < q.len() && 0 <= j < ct.len() && (#[trigger] q[i]).0 == (
                    #[trigger] ct[j]).0;
                assert(q[i].0 == c[j + 1].0);
            }
            if exists|i: int, j: int|
                0 <= i < q.len() && 0 <= j < c.len() && (#[trigger] q[i]).0 == (
                #[trigger] c[j]).0 {
                let (i, j) = choose|i: int, j: int|
                    0 <= i < q.len() && 0 <= j < c.len() && (#[trigger] q[i]).0 == (
                    #[trigger] c[j]).0;
                if j == 0 {
                    if i > 0 {
                        lemma_id_seg_pair(q, 0, i);
                        assert(false);
                    }
                    assert(false);
                } else {
                    assert(q[i].0 == ct[j - 1].0);
                }
            }
        }
    }
}

/// For id-sorted lists with positive counts, the shared weight exhausts
/// both totals exactly when the lists are equal.
#[verifier::rlimit(100)]
#[verifier::spinoff_prover]
pub proof fn lemma_full_overlap_iff_equal(q: Seq<(usize, usize)>, c: Seq<(usize, usize)>)
    requires
        forall|i: int| #![trigger q[i]] 0 <= i < q.len() - 1 ==> q[i].0 < q[i + 1].0,
        forall|i: int| #![trigger c[i]] 0 <= i < c.len() - 1 ==> c[i].0 < c[i + 1].0,
        forall|i: int| 0 <= i < q.len() ==> (#[trigger] q[i]).1 >= 1,
        forall|i: int| 0 <= i < c.len() ==> (#[trigger] c[i]).1 >= 1,
    ensures
        (overlap_sum(q, c) == id_total(q) && overlap_sum(q, c) == id_total(c)) == (q == c),
    decreases q.len() + c.len(),
{
    lemma_overlap_le(q, c);
    if q.len() == 0 && c.len() == 0 {
        assert(q =~= c);
    } else if q.len() == 0 || c.len() == 0 {
        if q.len() == 0 {
            lemma_id_total_nonneg(c.drop_first());
        } else {
            lemma_id_total_nonneg(q.drop_first());
        }
        assert(q != c);
    } else {
        let qt = q.drop_first();
        let ct = c.drop_first();
        assert forall|i: int| #![trigger qt[i]] 0 <= i < qt.len() - 1 implies qt[i].0 < qt[i
            + 1].0 by {
            assert(q[i + 1].0 < q[i + 2].0);
        }
        assert forall|i: int| #![trigger ct[i]] 0 <= i < ct.len() - 1 implies ct[i].0 < ct[i
            + 1].0 by {
            assert(c[i + 1].0 < c[i + 2].0);
        }
        assert(forall|i: int| 0 <= i < qt.len() ==> (#[trigger] qt[i]).1 >= 1) by {
            assert forall|i: int| 0 <= i < qt.len() implies (#[trigger] qt[i]).1 >= 1 by {
                assert(q[i + 1].1 >= 1);
            }
        }
        assert(forall|i: int| 0 <= i < ct.len() ==> (#[trigger] ct[i]).1 >= 1) by {
            assert forall|i: int| 0 <= i < ct.len() implies (#[trigger] ct[i]).1 >= 1 by {
                assert(c[i + 1].1 >= 1);
            }
        }
        lemma_full_overlap_iff_equal(qt, ct);
        lemma_overlap_le(qt, ct);
        lemma_overlap_le(qt, c);
        lemma_overlap_le(q, ct);
        lemma_id_total_nonneg(qt);
        lemma_id_total_nonneg(ct);
        if q[0].0 == c[0].0 {
            if overlap_sum(q, c) == id_total(q) && overlap_sum(q, c) == id_total(c) {
                // the heads must carry equal counts and the tails match
                assert(overlap_sum(q, c) == (if q[0].1 <= c[0].1 {
                    q[0].1 as int
                } else {
                    c[0].1 as int
                }) + overlap_sum(qt, ct));
                assert(id_total(q) == q[0].1 + id_total(qt));
                assert(id_total(c) == c[0].1 + id_total(ct));
                assert(overlap_sum(qt, ct) == id_total(qt));
                assert(overlap_sum(qt, ct) == id_total(ct));
                assert(qt == ct);
                assert(q[0].1 == c[0].1);
                assert(q =~= c) by {
                    assert forall|i: int| 0 <= i < q.len() implies q[i] == c[i] by {
                        if i > 0 {
                            assert(qt[i - 1] == ct[i - 1]);
                        }
                    }
                }
            }
            if q == c {
                assert(qt =~= ct);
                assert(q[0].1 == c[0].1);
            }
        } else if q[0].0 < c[0].0 {
            // the head of q is matched nowhere, so its count is lost
            assert(overlap_sum(q, c) == overlap_sum(qt, c));
            assert(overlap_sum(q, c) < id_total(q));
            if q == c {
                assert(q[0] == c[0]);
                assert(false);
            }
        } else {
            assert(overlap_sum(q, c) == overlap_sum(q, ct));
            assert(overlap_sum(q, c) < id_total(c));
            if q == c {
                assert(q[0] == c[0]);
                assert(false);
            }
        }
    }
}

/// Strictly increasing ids extend to any two positions.
pub proof fn lemma_id_seg_pair(s: Seq<(usize, usize)>, i: int, j: int)
    requires
        forall|t: int| #![trigger s[t]] 0 <= t < s.len() - 1 ==> s[t].0 < s[t + 1].0,
        0 <= i < j < s.len(),
    ensures
        s[i].0 < s[j].0,
    decreases j - i,
{
    assert(s[j - 1].0 < s[j].0);
    if i + 1 < j {
        lemma_id_seg_pair(s, i, j - 1);
    }
}

/// Computes the shared weight of two id-sorted count lists.
pub fn merge_overlap(q: &Vec<(usize, usize)>, c: &Vec<(usize, usize)>) -> (s: usize)
    requires
        id_total(q@) <= usize::MAX,
    ensures
        s == overlap_sum(q@, c@),
{
    let mut acc: usize = 0;
    let mut i: usize = 0;
    let mut j: usize = 0;
    proof {
        lemma_overlap_le(q@, c@);
        assert(q@.skip(0) =~= q@);
        assert(c@.skip(0) =~= c@);
    }
    while i < q.len() && j < c.len()
        invariant
            i <= q@.len(),
            j <= c@.len(),
            id_total(q@) <= usize::MAX,
            acc + overlap_sum(q@.skip(i as int), c@.skip(j as int)) == overlap_sum(q@, c@),
            acc <= overlap_sum(q@, c@) - overlap_sum(q@.skip(i as int), c@.skip(j as int)),
            overlap_sum(q@, c@) <= usize::MAX,
        decreases q@.len() - i + c@.len() - j,
    {
        let ghost qs = q@.skip(i as int);
        let ghost cs = c@.skip(j as int);
        proof {
            assert(qs[0] == q@[i as int]);
            assert(cs[0] == c@[j as int]);
            assert(qs.drop_first() =~= q@.skip(i + 1));
            assert(cs.drop_first() =~= c@.skip(j + 1));
            lemma_overlap_le(qs, cs);
            lemma_overlap_le(qs.drop_first(), cs.drop_first());
            lemma_overlap_le(qs.drop_first(), cs);
            lemma_overlap_le(qs, cs.drop_first());
        }
        let (qg, qc) = q[i];
        let (cg, cc) = c[j];
        if qg == cg {
            let m = if qc <= cc {
                qc
            } else {
                cc
            };
            acc = acc + m;
            i = i + 1;
            j = j + 1;
        } else if qg < cg {
            i = i + 1;
        } else {
            j = j + 1;
        }
    }
    proof {
        if i >= q@.len() {
            assert(q@.skip(i as int) =~= Seq::<(usize, usize)>::empty());
        } else {
            assert(c@.skip(j as int) =~= Seq::<(usize, usize)>::empty());
        }
    }
    acc
}

// ===================== query ids =====================

/// The rank of a gram known to be in the table.
pub open spec fn table_rank(tv: Seq<Seq<u32>>, g: Seq<u32>) -> int {
    choose|i: int| 0 <= i < tv.len() && #[trigger] tv[i] == g
}

/// The query's (gram id, count) list: its pairs, the absent grams
/// filtered away, the rest rewritten as table ranks.
pub open spec fn query_ids(tv: Seq<Seq<u32>>, qps: Seq<GramCount>) -> Seq<(usize, usize)>
    decreases qps.len(),
{
    if qps.len() == 0 {
        Seq::empty()
    } else if table_contains(tv, qps[0].0) {
        seq![((table_rank(tv, qps[0].0) as usize), qps[0].1)] + query_ids(tv, qps.drop_first())
    } else {
        query_ids(tv, qps.drop_first())
    }
}

/// The query id list is sorted, positive, bounded by the pair total, and
/// every entry names a query gram.
pub proof fn lemma_query_ids_props(tv: Seq<Seq<u32>>, qps: Seq<GramCount>)
    requires
        table_sorted(tv),
        tv.len() <= usize::MAX,
        pairs_sorted(qps),
        crate::grams::pairs_pos(qps),
        crate::grams::pairs_total(qps) <= usize::MAX,
    ensures
        ({
            let r = query_ids(tv, qps);
            &&& (forall|t: int| 0 <= t < r.len() ==> (#[trigger] r[t]).0 < tv.len())
            &&& (forall|t: int| 0 <= t < r.len() ==> (#[trigger] r[t]).1 >= 1)
            &&& (forall|t: int|
                0 <= t < r.len() ==> (exists|j: int|
                    0 <= j < qps.len() && tv[(#[trigger] r[t]).0 as int] == (
                    #[trigger] qps[j]).0))
            &&& (forall|t: int| #![trigger r[t]] 0 <= t < r.len() - 1 ==> r[t].0 < r[t + 1].0)
            &&& id_total(r) <= crate::grams::pairs_total(qps)
        }),
    decreases qps.len(),
{
    let r = query_ids(tv, qps);
    crate::grams::lemma_pairs_total_nonneg(qps);
    if qps.len() == 0 {
    } else {
        let qt = qps.drop_first();
        assert(pairs_sorted(qt)) by {
            assert forall|i: int| 0 <= i < qt.len() - 1 implies lex_lt(
                #[trigger] qt[i].0,
                qt[i + 1].0,
            ) by {
                assert(lex_lt(qps[i + 1].0, qps[i + 2].0));
            }
        }
        assert(crate::grams::pairs_pos(qt)) by {
            assert forall|i: int| 0 <= i < qt.len() implies (#[trigger] qt[i]).1 >= 1 by {
                assert(qps[i + 1].1 >= 1);
            }
        }
        crate::grams::lemma_pairs_total_nonneg(qt);
        lemma_query_ids_props(tv, qt);
        let rt = query_ids(tv, qt);
        if table_contains(tv, qps[0].0) {
            let rk = table_rank(tv, qps[0].0);
            assert(0 <= rk < tv.len() && tv[rk] == qps[0].0);
            assert(r == seq![((rk as usize), qps[0].1)] + rt);
            assert(qps[0].1 >= 1);
            assert forall|t: int| 0 <= t < r.len() implies (#[trigger] r[t]).0 < tv.len() by {
                if t > 0 {
                    assert(r[t] == rt[t - 1]);
                }
            }
            assert forall|t: int| 0 <= t < r.len() implies (#[trigger] r[t]).1 >= 1 by {
                if t > 0 {
                    assert(r[t] == rt[t - 1]);
                }
            }
            assert forall|t: int|
                0 <= t < r.len() implies (exists|j: int|
                0 <= j < qps.len() && tv[(#[trigger] r[t]).0 as int] == (#[trigger] qps[j]).0) by {
                if t == 0 {
                    assert(tv[r[0].0 as int] == qps[0].0);
                } else {
                    assert(r[t] == rt[t - 1]);
                    let j = choose|j: int|
                        0 <= j < qt.len() && tv[(rt[t - 1]).0 as int] == (#[trigger] qt[j]).0;
                    assert(tv[r[t].0 as int] == qps[j + 1].0);
                }
            }
            assert forall|t: int| #![trigger r[t]] 0 <= t < r.len() - 1 implies r[t].0 < r[t
                + 1].0 by {
                if t == 0 {
                    if rt.len() > 0 {
                        let j = choose|j: int|
                            0 <= j < qt.len() && tv[(rt[0]).0 as int] == (#[trigger] qt[j]).0;
                        assert(tv[rt[0].0 as int] == qps[j + 1].0);
                        assert(lex_lt(qps[0].0, qps[j + 1].0)) by {
                            crate::grams::lemma_pairs_sorted_pair(qps, 0, j + 1);
                        }
                        crate::table::lemma_table_index_order(tv, rk, rt[0].0 as int);
                        assert(r[1] == rt[0]);
                    }
                } else {
                    assert(r[t] == rt[t - 1] && r[t + 1] == rt[t]);
                }
            }
            assert(id_total(r) == qps[0].1 + id_total(rt)) by {
                assert(r.drop_first() =~= rt);
            }
        } else {
            assert(r == rt);
            assert forall|t: int|
                0 <= t < r.len() implies (exists|j: int|
                0 <= j < qps.len() && tv[(#[trigger] r[t]).0 as int] == (#[trigger] qps[j]).0) by {
                let j = choose|j: int|
                    0 <= j < qt.len() && tv[(rt[t]).0 as int] == (#[trigger] qt[j]).0;
                assert(tv[r[t].0 as int] == qps[j + 1].0);
            }
        }
    }
}

// ===================== hits and their order =====================

/// A candidate hit: a key id with its exact score.
pub type Hit = (usize, Score);

/// `a` ranks before `b`: a higher score, or the same score and a lower
/// key id.
pub open spec fn hit_better(a: Hit, b: Hit) -> bool {
    score_lt(b.1, a.1) || (score_eqv(a.1, b.1) && a.0 < b.0)
}

/// No entry ranks before its predecessor.
pub open spec fn hits_sorted(s: Seq<Hit>) -> bool {
    forall|i: int| #![trigger s[i]] 0 <= i < s.len() - 1 ==> !hit_better(s[i + 1], s[i])
}

/// Every denominator in a hit list is positive.
pub open spec fn hits_wf(s: Seq<Hit>) -> bool {
    forall|i: int| 0 <= i < s.len() ==> (#[trigger] s[i]).1.den >= 1
}

/// Inserts a hit before the first entry it outranks.
pub open spec fn ins_hit(s: Seq<Hit>, x: Hit) -> Seq<Hit>
    decreases s.len(),
{
    if s.len() == 0 {
        seq![x]
    } else if hit_better(x, s[0]) {
        seq![x] + s
    } else {
        seq![s[0]] + ins_hit(s.drop_first(), x)
    }
}

/// All hits, ranked: an insertion fold.
pub open spec fn sort_hits(s: Seq<Hit>) -> Seq<Hit>
    decreases s.len(),
{
    if s.len() == 0 {
        Seq::empty()
    } else {
        ins_hit(sort_hits(s.drop_last()), s.last())
    }
}

/// How often an exact hit occurs.
pub open spec fn hit_count(s: Seq<Hit>, x: Hit) -> int
    decreases s.len(),
{
    if s.len() == 0 {
        0
    } else {
        (if s[0] == x {
            1int
        } else {
            0int
        }) + hit_count(s.drop_first(), x)
    }
}

/// Insertion adds exactly the inserted hit.
pub proof fn lemma_ins_hit_count(s: Seq<Hit>, x: Hit, y: Hit)
    ensures
        hit_count(ins_hit(s, x), y) == hit_count(s, y) + if y == x {
            1int
        } else {
            0int
        },
        ins_hit(s, x).len() == s.len() + 1,
    decreases s.len(),
{
    let r = ins_hit(s, x);
    if s.len() == 0 {
        assert(r == seq![x]);
        assert(r[0] == x);
        assert(r.drop_first() =~= Seq::<Hit>::empty());
        assert(hit_count(r.drop_first(), y) == 0);
        assert(hit_count(r, y) == (if r[0] == y {
            1int
        } else {
            0int
        }) + hit_count(r.drop_first(), y));
    } else if hit_better(x, s[0]) {
        assert(r == seq![x] + s);
        assert(r[0] == x);
        assert(r.drop_first() =~= s);
        assert(hit_count(r, y) == (if r[0] == y {
            1int
        } else {
            0int
        }) + hit_count(r.drop_first(), y));
    } else {
        lemma_ins_hit_count(s.drop_first(), x, y);
        assert(r == seq![s[0]] + ins_hit(s.drop_first(), x));
        assert(r[0] == s[0]);
        assert(r.drop_first() =~= ins_hit(s.drop_first(), x));
        assert(hit_count(r, y) == (if r[0] == y {
            1int
        } else {
            0int
        }) + hit_count(r.drop_first(), y));
        assert(hit_count(s, y) == (if s[0] == y {
            1int
        } else {
            0int
        }) + hit_count(s.drop_first(), y));
    }
}

/// Ranking before is asymmetric.
pub proof fn lemma_hit_better_asym(a: Hit, b: Hit)
    ensures
        hit_better(a, b) ==> !hit_better(b, a),
{
}

/// Not ranking before is transitive.
pub proof fn lemma_hit_not_better_trans(a: Hit, b: Hit, c: Hit)
    requires
        a.1.den >= 1,
        b.1.den >= 1,
        c.1.den >= 1,
        !hit_better(b, a),
        !hit_better(c, b),
    ensures
        !hit_better(c, a),
{
    if hit_better(c, a) {
        if score_lt(a.1, c.1) {
            // b neither outranks a nor is outranked by c, yet a ranks
            // strictly below c: b cannot sit anywhere
            if score_lt(c.1, b.1) {
                lemma_score_lt_trans(a.1, c.1, b.1);
                assert(false);
            }
            if score_lt(b.1, a.1) {
                lemma_score_lt_trans(b.1, a.1, c.1);
                assert(false);
            }
            lemma_score_eqv_lt(a.1, b.1, c.1);
            lemma_score_eqv_lt(b.1, c.1, a.1);
            lemma_score_eqv_lt(c.1, a.1, b.1);
            assert(false);
        } else {
            assert(score_eqv(c.1, a.1) && c.0 < a.0);
            lemma_score_eqv_lt(a.1, c.1, b.1);
            lemma_score_eqv_lt(b.1, a.1, c.1);
            lemma_score_eqv_lt(c.1, b.1, a.1);
            assert(!score_lt(a.1, b.1) && !score_lt(b.1, c.1));
            if score_lt(c.1, b.1) {
                lemma_score_eqv_lt(a.1, c.1, b.1);
                assert(score_lt(a.1, b.1));
                assert(false);
            }
            if score_lt(b.1, a.1) {
                lemma_score_eqv_lt(b.1, a.1, c.1);
                assert(score_lt(b.1, c.1));
                assert(false);
            }
            assert(score_eqv(b.1, a.1) && score_eqv(c.1, b.1));
            assert(a.0 <= b.0 && b.0 <= c.0);
            assert(false);
        }
    }
}

/// Insertion keeps the ranking order.
pub proof fn lemma_ins_hit_sorted(s: Seq<Hit>, x: Hit)
    requires
        hits_sorted(s),
        hits_wf(s),
        x.1.den >= 1,
    ensures
        hits_sorted(ins_hit(s, x)),
        hits_wf(ins_hit(s, x)),
    decreases s.len(),
{
    let r = ins_hit(s, x);
    if s.len() == 0 {
    } else if hit_better(x, s[0]) {
        lemma_hit_better_asym(x, s[0]);
        assert forall|i: int| #![trigger r[i]] 0 <= i < r.len() - 1 implies !hit_better(
            r[i + 1],
            r[i],
        ) by {
            if i > 0 {
                assert(r[i] == s[i - 1] && r[i + 1] == s[i]);
            }
        }
        assert forall|i: int| 0 <= i < r.len() implies (#[trigger] r[i]).1.den >= 1 by {
            if i > 0 {
                assert(r[i] == s[i - 1]);
            }
        }
    } else {
        let tail = s.drop_first();
        assert(hits_sorted(tail)) by {
            assert forall|i: int| #![trigger tail[i]] 0 <= i < tail.len() - 1 implies !hit_better(
                tail[i + 1],
                tail[i],
            ) by {
                assert(s[i + 1] == tail[i] && s[i + 2] == tail[i + 1]);
                assert(!hit_better(s[(i + 1) + 1], s[i + 1]));
            }
        }
        assert(hits_wf(tail)) by {
            assert forall|i: int| 0 <= i < tail.len() implies (#[trigger] tail[i]).1.den >= 1 by {
                assert(s[i + 1].1.den >= 1);
            }
        }
        lemma_ins_hit_sorted(tail, x);
        let tr = ins_hit(tail, x);
        assert forall|i: int| #![trigger r[i]] 0 <= i < r.len() - 1 implies !hit_better(
            r[i + 1],
            r[i],
        ) by {
            if i == 0 {
                assert(r[1] == tr[0]);
                if tail.len() == 0 {
                    assert(tr[0] == x);
                } else if hit_better(x, tail[0]) {
                    assert(tr[0] == x);
                } else {
                    assert(tr[0] == tail[0] && tail[0] == s[1]);
                    assert(!hit_better(s[0int + 1], s[0int]));
                }
            } else {
                assert(r[i] == tr[i - 1] && r[i + 1] == tr[i]);
                assert(!hit_better(tr[(i - 1) + 1], tr[i - 1]));
            }
        }
        assert forall|i: int| 0 <= i < r.len() implies (#[trigger] r[i]).1.den >= 1 by {
            if i > 0 {
                assert(r[i] == tr[i - 1]);
            }
        }
    }
}

/// Sorting ranks the hits and keeps exactly them.
pub proof fn lemma_sort_hits(s: Seq<Hit>)
    requires
        hits_wf(s),
    ensures
        hits_sorted(sort_hits(s)),
        hits_wf(sort_hits(s)),
        sort_hits(s).len() == s.len(),
        forall|y: Hit| #[trigger] hit_count(sort_hits(s), y) == hit_count(s, y),
    decreases s.len(),
{
    if s.len() > 0 {
        let head = s.drop_last();
        assert(hits_wf(head)) by {
            assert forall|i: int| 0 <= i < head.len() implies (#[trigger] head[i]).1.den >= 1 by {
                assert(s[i].1.den >= 1);
            }
        }
        lemma_sort_hits(head);
        assert(s.last().1.den >= 1);
        lemma_ins_hit_sorted(sort_hits(head), s.last());
        lemma_ins_hit_count(sort_hits(head), s.last(), s.last());
        assert forall|y: Hit| #[trigger] hit_count(sort_hits(s), y) == hit_count(s, y) by {
            lemma_ins_hit_count(sort_hits(head), s.last(), y);
            lemma_hit_count_snoc(s, y);
        }
    }
}

/// Counting splits off the last element.
pub proof fn lemma_hit_count_snoc(s: Seq<Hit>, y: Hit)
    requires
        s.len() > 0,
    ensures
        hit_count(s, y) == hit_count(s.drop_last(), y) + if s.last() == y {
            1int
        } else {
            0int
        },
    decreases s.len(),
{
    if s.len() == 1 {
        assert(s.drop_first() =~= Seq::<Hit>::empty());
        assert(s.drop_last() =~= Seq::<Hit>::empty());
        assert(s[0] == s.last());
    } else {
        lemma_hit_count_snoc(s.drop_first(), y);
        assert(s.drop_first().drop_last() =~= s.drop_last().drop_first());
        assert(s.drop_first().last() == s.last());
        assert(s.drop_last()[0] == s[0]);
    }
}

/// A positive count yields a position.
pub proof fn lemma_hit_count_index(s: Seq<Hit>, y: Hit)
    requires
        hit_count(s, y) > 0,
    ensures
        exists|i: int| 0 <= i < s.len() && #[trigger] s[i] == y,
    decreases s.len(),
{
    if s.len() > 0 {
        if s[0] == y {
        } else {
            lemma_hit_count_index(s.drop_first(), y);
            let i = choose|i: int| 0 <= i < s.drop_first().len() && #[trigger] s.drop_first()[i]
                == y;
            assert(s[i + 1] == y);
        }
    }
}

/// A membership yields a positive count.
pub proof fn lemma_hit_index_count(s: Seq<Hit>, i: int)
    requires
        0 <= i < s.len(),
    ensures
        hit_count(s, s[i]) > 0,
        hit_count(s, s[i]) >= 1,
    decreases s.len(),
{
    lemma_hit_count_nonneg(s.drop_first(), s[i]);
    if i > 0 {
        lemma_hit_index_count(s.drop_first(), i - 1);
        assert(s.drop_first()[i - 1] == s[i]);
    }
}

/// Counts are never negative.
pub proof fn lemma_hit_count_nonneg(s: Seq<Hit>, y: Hit)
    ensures
        hit_count(s, y) >= 0,
    decreases s.len(),
{
    if s.len() > 0 {
        lemma_hit_count_nonneg(s.drop_first(), y);
    }
}

/// In a ranked list, no later entry outranks an earlier one.
pub proof fn lemma_hits_sorted_pair(s: Seq<Hit>, i: int, j: int)
    requires
        hits_sorted(s),
        hits_wf(s),
        0 <= i <= j < s.len(),
    ensures
        !hit_better(s[j], s[i]),
    decreases j - i,
{
    if i < j {
        lemma_hits_sorted_pair(s, i, j - 1);
        assert(!hit_better(s[(j - 1) + 1], s[j - 1]));
        lemma_hit_not_better_trans(s[i], s[j - 1], s[j]);
    }
}

/// Inserts a hit into a ranked vector.
fn ins_hit_exec(s: Vec<(usize, Score)>, x: (usize, Score)) -> (r: Vec<(usize, Score)>)
    ensures
        r@ == ins_hit(s@, x),
    decreases s@.len(),
{
    let mut s = s;
    if s.len() == 0 {
        s.push(x);
        proof {
            assert(s@ =~= ins_hit(Seq::<Hit>::empty(), x));
        }
        return s;
    }
    let ghost sv = s@;
    let o = score_cmp(&x.1, &s[0].1);
    let better = o > 0 || (o == 0 && x.0 < s[0].0);
    if better {
        s.insert(0, x);
        proof {
            assert(s@ =~= seq![x] + sv);
        }
        s
    } else {
        let head = s.remove(0);
        proof {
            assert(s@ =~= sv.drop_first());
        }
        let mut rest = ins_hit_exec(s, x);
        rest.insert(0, head);
        proof {
            assert(rest@ =~= seq![sv[0]] + ins_hit(sv.drop_first(), x));
        }
        rest
    }
}

/// Ranks a vector of hits.
fn sort_hits_exec(v: Vec<(usize, Score)>) -> (r: Vec<(usize, Score)>)
    ensures
        r@ == sort_hits(v@),
{
    let mut r: Vec<(usize, Score)> = Vec::new();
    let mut i: usize = 0;
    proof {
        assert(v@.subrange(0, 0) =~= Seq::<Hit>::empty());
    }
    while i < v.len()
        invariant
            i <= v@.len(),
            r@ == sort_hits(v@.subrange(0, i as int)),
        decreases v@.len() - i,
    {
        let ghost pre = v@.subrange(0, i as int);
        r = ins_hit_exec(r, v[i]);
        proof {
            assert(v@.subrange(0, i + 1).drop_last() =~= pre);
            assert(v@.subrange(0, i + 1).last() == v@[i as int]);
        }
        i = i + 1;
    }
    proof {
        assert(v@.subrange(0, v@.len() as int) =~= v@);
    }
    r
}

// ===================== the engine's specification =====================

/// A key's (gram id, count) list, in id order.
pub open spec fn kid_id_pairs(c: Corpus, kid: int) -> Seq<(usize, usize)> {
    Seq::new(
        key_pairs(c.cfg(), c.kview()[kid]).len(),
        |j: int|
            ((c.gview().s2d()[c.gview().src_off()[kid] + j], c.gview().wrows()[kid][j])),
    )
}

/// The query's (gram id, count) list under a corpus's table.
pub open spec fn query_list(c: Corpus, q: Seq<char>) -> Seq<(usize, usize)> {
    query_ids(c.tview(), key_pairs(c.cfg(), q))
}

/// The query's total n-gram count, absent grams included.
pub open spec fn spec_nq(c: Corpus, q: Seq<char>) -> int {
    crate::grams::pairs_total(key_pairs(c.cfg(), q))
}

/// A key's total n-gram count.
pub open spec fn spec_nk(c: Corpus, kid: int) -> int {
    id_total(kid_id_pairs(c, kid))
}

/// The shared weight between the query and a key.
pub open spec fn spec_overlap(c: Corpus, q: Seq<char>, kid: int) -> int {
    overlap_sum(query_list(c, q), kid_id_pairs(c, kid))
}

/// The exact weighted Jaccard score of a key against the query.
pub open spec fn spec_score(c: Corpus, q: Seq<char>, kid: int) -> Score {
    Score {
        num: spec_overlap(c, q, kid) as usize,
        den: ((spec_nq(c, q) + spec_nk(c, kid)) - spec_overlap(c, q, kid)) as usize,
    }
}

/// The key shares a gram with the query and scores at least the
/// threshold.
pub open spec fn qualifies(c: Corpus, q: Seq<char>, tau: Score, kid: int) -> bool {
    &&& 0 <= kid < c.kview().len()
    &&& spec_overlap(c, q, kid) > 0
    &&& !score_lt(spec_score(c, q, kid), tau)
}

// ===================== engine helpers =====================

/// Sums a pair list's counts.
fn sum_pairs(ps: &Vec<(Vec<u32>, usize)>) -> (s: usize)
    requires
        crate::grams::pairs_total(ps.deep_view()) <= usize::MAX,
    ensures
        s == crate::grams::pairs_total(ps.deep_view()),
{
    let ghost dv = ps.deep_view();
    proof {
        crate::grams::lemma_deep_view_pairs(*ps);
        assert(dv.skip(0) =~= dv);
    }
    let mut acc: usize = 0;
    let mut i: usize = 0;
    while i < ps.len()
        invariant
            dv == ps.deep_view(),
            dv.len() == ps@.len(),
            forall|t: int| 0 <= t < ps@.len() ==> (#[trigger] dv[t]).1 == ps@[t].1,
            i <= ps@.len(),
            acc + crate::grams::pairs_total(dv.skip(i as int)) == crate::grams::pairs_total(dv),
            crate::grams::pairs_total(dv) <= usize::MAX,
        decreases ps@.len() - i,
    {
        proof {
            crate::grams::lemma_pairs_total_nonneg(dv.skip(i + 1));
            assert(dv.skip(i as int)[0] == dv[i as int]);
            assert(dv.skip(i as int).drop_first() =~= dv.skip(i + 1));
        }
        acc = acc + ps[i].1;
        i = i + 1;
    }
    proof {
        assert(dv.skip(ps@.len() as int) =~= Seq::<GramCount>::empty());
    }
    acc
}

/// Sums an id-count list's counts.
fn sum_ids(v: &Vec<(usize, usize)>) -> (s: usize)
    requires
        id_total(v@) <= usize::MAX,
    ensures
        s == id_total(v@),
{
    proof {
        assert(v@.skip(0) =~= v@);
    }
    let mut acc: usize = 0;
    let mut i: usize = 0;
    while i < v.len()
        invariant
            i <= v@.len(),
            acc + id_total(v@.skip(i as int)) == id_total(v@),
            id_total(v@) <= usize::MAX,
        decreases v@.len() - i,
    {
        proof {
            lemma_id_total_nonneg(v@.skip(i + 1));
            assert(v@.skip(i as int)[0] == v@[i as int]);
            assert(v@.skip(i as int).drop_first() =~= v@.skip(i + 1));
        }
        acc = acc + v[i].1;
        i = i + 1;
    }
    proof {
        assert(v@.skip(v@.len() as int) =~= Seq::<(usize, usize)>::empty());
    }
    acc
}

/// Rewrites the query's pairs as table ranks, dropping absent grams.
fn query_vec(c: &Corpus, qps: &Vec<(Vec<u32>, usize)>) -> (qv: Vec<(usize, usize)>)
    requires
        c.corpus_wf(),
    ensures
        qv@ == query_ids(c.tview(), qps.deep_view()),
{
    let ghost tv = c.tview();
    let ghost dv = qps.deep_view();
    proof {
        crate::grams::lemma_deep_view_pairs(*qps);
        assert(dv.skip(0) =~= dv);
        assert(query_ids(tv, dv) == Seq::<(usize, usize)>::empty() + query_ids(tv, dv.skip(0)));
        assert(Seq::<(usize, usize)>::empty() + query_ids(tv, dv.skip(0)) =~= query_ids(
            tv,
            dv.skip(0),
        ));
    }
    let mut qv: Vec<(usize, usize)> = Vec::new();
    let mut i: usize = 0;
    while i < qps.len()
        invariant
            c.corpus_wf(),
            tv == c.tview(),
            dv == qps.deep_view(),
            dv.len() == qps@.len(),
            forall|t: int|
                0 <= t < qps@.len() ==> (#[trigger] dv[t]) == ((qps@[t].0@, qps@[t].1)),
            i <= qps@.len(),
            query_ids(tv, dv) == qv@ + query_ids(tv, dv.skip(i as int)),
        decreases qps@.len() - i,
    {
        let ghost suf = dv.skip(i as int);
        proof {
            assert(suf[0] == dv[i as int]);
            assert(suf.drop_first() =~= dv.skip(i + 1));
        }
        let r = c.ngram_id_from_ngram(&qps[i].0);
        match r {
            Some(gid) => {
                proof {
                    assert(table_contains(tv, suf[0].0));
                    let rk = table_rank(tv, suf[0].0);
                    assert(0 <= rk < tv.len() && tv[rk] == suf[0].0);
                    crate::corpus::lemma_ngram_rank_unique(tv, gid as int, rk);
                    assert(query_ids(tv, suf) == seq![((rk as usize), suf[0].1)] + query_ids(
                        tv,
                        suf.drop_first(),
                    ));
                }
                qv.push((gid, qps[i].1));
                proof {
                    assert(qv@ + query_ids(tv, dv.skip(i + 1)) =~= query_ids(tv, dv));
                }
            },
            None => {
                proof {
                    assert(!table_contains(tv, suf[0].0));
                    assert(query_ids(tv, suf) == query_ids(tv, suf.drop_first()));
                }
            },
        }
        i = i + 1;
    }
    proof {
        assert(dv.skip(qps@.len() as int) =~= Seq::<GramCount>::empty());
        assert(qv@ + query_ids(tv, dv.skip(qps@.len() as int)) =~= qv@);
    }
    qv
}

/// The key shares a gram with the query exactly when its id appears in
/// some listed gram's key list.
pub open spec fn shares(c: Corpus, qv: Seq<(usize, usize)>, kid: int) -> bool {
    exists|t: int| 0 <= t < qv.len() && c.gview().edge_in_dst(kid, (#[trigger] qv[t]).0 as int)
}

/// Enumerates the candidate keys: every key sharing at least one listed
/// gram with the query, each exactly once.
#[verifier::rlimit(100)]
fn candidates(c: &Corpus, qv: &Vec<(usize, usize)>) -> (cands: Vec<usize>)
    requires
        c.corpus_wf(),
        forall|t: int| 0 <= t < qv@.len() ==> (#[trigger] qv@[t]).0 < c.tview().len(),
    ensures
        forall|m: int|
            0 <= m < cands@.len() ==> (#[trigger] cands@[m]) < c.kview().len() && shares(
                *c,
                qv@,
                cands@[m] as int,
            ),
        forall|m: int, m2: int|
            0 <= m < m2 < cands@.len() ==> (#[trigger] cands@[m]) != (#[trigger] cands@[m2]),
        forall|kid: int|
            0 <= kid < c.kview().len() && shares(*c, qv@, kid) ==> (exists|m: int|
                0 <= m < cands@.len() && (#[trigger] cands@[m]) == kid),
{
    let ns = c.number_of_keys();
    let mut visited: Vec<bool> = Vec::new();
    let mut z: usize = 0;
    while z < ns
        invariant
            z <= ns,
            visited@.len() == z,
            forall|kid: int| 0 <= kid < z ==> !(#[trigger] visited@[kid]),
        decreases ns - z,
    {
        visited.push(false);
        z = z + 1;
    }
    let mut cands: Vec<usize> = Vec::new();
    let mut t: usize = 0;
    while t < qv.len()
        invariant
            c.corpus_wf(),
            ns == c.kview().len(),
            forall|t2: int| 0 <= t2 < qv@.len() ==> (#[trigger] qv@[t2]).0 < c.tview().len(),
            t <= qv@.len(),
            visited@.len() == ns,
            forall|kid: int|
                0 <= kid < ns ==> #[trigger] visited@[kid] == (exists|t2: int|
                    0 <= t2 < t && c.gview().edge_in_dst(kid, (#[trigger] qv@[t2]).0 as int)),
            forall|m: int|
                0 <= m < cands@.len() ==> (#[trigger] cands@[m]) < ns && visited@[cands@[m] as int],
            forall|m: int, m2: int|
                0 <= m < m2 < cands@.len() ==> (#[trigger] cands@[m]) != (#[trigger] cands@[m2]),
            forall|kid: int|
                0 <= kid < ns && visited@[kid] ==> (exists|m: int|
                    0 <= m < cands@.len() && (#[trigger] cands@[m]) == kid),
        decreases qv@.len() - t,
    {
        let gid = qv[t].0;
        let kids = c.key_ids_from_ngram_id(gid);
        let ghost g = c.gview();
        let ghost lo = g.dst_off()[gid as int] as int;
        let ghost hi = g.dst_off()[gid + 1] as int;
        proof {
            crate::ef::lemma_monotone_pair(g.dst_off(), gid + 1, g.dst_off().len() - 1);
        }
        let mut m: usize = 0;
        while m < kids.len()
            invariant
                c.corpus_wf(),
                ns == c.kview().len(),
                g == c.gview(),
                t < qv@.len(),
                qv@[t as int].0 < c.tview().len(),
                lo == g.dst_off()[qv@[t as int].0 as int],
                hi == g.dst_off()[qv@[t as int].0 + 1],
                kids@ == g.d2s().subrange(lo, hi),
                hi <= g.d2s().len(),
                forall|j: int| 0 <= j < kids@.len() ==> (#[trigger] kids@[j]) < ns,
                m <= kids@.len(),
                visited@.len() == ns,
                forall|kid: int|
                    0 <= kid < ns ==> #[trigger] visited@[kid] == ((exists|t2: int|
                        0 <= t2 < t && c.gview().edge_in_dst(kid, (#[trigger] qv@[t2]).0 as int))
                        || (exists|j: int| 0 <= j < m && (#[trigger] kids@[j]) == kid)),
                forall|m2: int|
                    0 <= m2 < cands@.len() ==> (#[trigger] cands@[m2]) < ns && visited@[cands@[m2] as int],
                forall|m2: int, m3: int|
                    0 <= m2 < m3 < cands@.len() ==> (#[trigger] cands@[m2]) != (
                    #[trigger] cands@[m3]),
                forall|kid: int|
                    0 <= kid < ns && visited@[kid] ==> (exists|m2: int|
                        0 <= m2 < cands@.len() && (#[trigger] cands@[m2]) == kid),
            decreases kids@.len() - m,
        {
            let kid = kids[m];
            if !visited[kid] {
                let ghost oldcands = cands@;
                visited.set(kid, true);
                cands.push(kid);
                proof {
                    assert(kids@[m as int] == kid);
                    assert forall|kid2: int|
                        0 <= kid2 < ns && visited@[kid2] implies (exists|m2: int|
                        0 <= m2 < cands@.len() && (#[trigger] cands@[m2]) == kid2) by {
                        if kid2 == kid as int {
                            assert(cands@[cands@.len() - 1] == kid2);
                        } else {
                            let m2 = choose|m2: int|
                                0 <= m2 < oldcands.len() && (#[trigger] oldcands[m2]) == kid2;
                            assert(cands@[m2] == kid2);
                        }
                    }
                    assert forall|kid2: int|
                        0 <= kid2 < ns implies #[trigger] visited@[kid2] == ((exists|t2: int|
                        0 <= t2 < t && c.gview().edge_in_dst(
                            kid2,
                            (#[trigger] qv@[t2]).0 as int,
                        )) || (exists|j: int|
                        0 <= j < m + 1 && (#[trigger] kids@[j]) == kid2)) by {
                        if kid2 == kid {
                            assert(kids@[m as int] == kid2);
                        }
                    }
                }
            } else {
                proof {
                    assert(kids@[m as int] == kid);
                    assert forall|kid2: int|
                        0 <= kid2 < ns implies #[trigger] visited@[kid2] == ((exists|t2: int|
                        0 <= t2 < t && c.gview().edge_in_dst(
                            kid2,
                            (#[trigger] qv@[t2]).0 as int,
                        )) || (exists|j: int|
                        0 <= j < m + 1 && (#[trigger] kids@[j]) == kid2)) by {
                        if kid2 == kid {
                            assert(kids@[m as int] == kid2);
                        }
                    }
                }
            }
            m = m + 1;
        }
        proof {
            // a key is in this gram's list exactly when it has the edge
            assert forall|kid: int|
                0 <= kid < ns implies ((exists|j: int|
                0 <= j < kids@.len() && (#[trigger] kids@[j]) == kid) == c.gview().edge_in_dst(
                kid,
                qv@[t as int].0 as int,
            )) by {
                if exists|j: int| 0 <= j < kids@.len() && (#[trigger] kids@[j]) == kid {
                    let j = choose|j: int| 0 <= j < kids@.len() && (#[trigger] kids@[j]) == kid;
                    assert(g.d2s()[lo + j] == kid);
                    assert(crate::graph::edge_in(g.dst_off(), g.d2s(), qv@[t as int].0 as int, kid));
                }
                if c.gview().edge_in_dst(kid, qv@[t as int].0 as int) {
                    let e = choose|e: int|
                        g.dst_off()[qv@[t as int].0 as int] <= e < g.dst_off()[qv@[t as int].0 + 1]
                            && 0 <= e < g.d2s().len() && #[trigger] g.d2s()[e] == kid;
                    assert(kids@[e - lo] == kid);
                }
            }
            assert forall|kid: int|
                0 <= kid < ns implies #[trigger] visited@[kid] == (exists|t2: int|
                0 <= t2 < t + 1 && c.gview().edge_in_dst(kid, (#[trigger] qv@[t2]).0 as int)) by {
                if visited@[kid] {
                    if exists|t2: int|
                        0 <= t2 < t && c.gview().edge_in_dst(kid, (#[trigger] qv@[t2]).0 as int) {
                        let t2 = choose|t2: int|
                            0 <= t2 < t && c.gview().edge_in_dst(
                                kid,
                                (#[trigger] qv@[t2]).0 as int,
                            );
                        assert(0 <= t2 < t + 1 && c.gview().edge_in_dst(
                            kid,
                            qv@[t2].0 as int,
                        ));
                    } else {
                        assert(c.gview().edge_in_dst(kid, qv@[t as int].0 as int));
                    }
                } else {
                    if exists|t2: int|
                        0 <= t2 < t + 1 && c.gview().edge_in_dst(
                            kid,
                            (#[trigger] qv@[t2]).0 as int,
                        ) {
                        let t2 = choose|t2: int|
                            0 <= t2 < t + 1 && c.gview().edge_in_dst(
                                kid,
                                (#[trigger] qv@[t2]).0 as int,
                            );
                        if t2 < t {
                            assert(visited@[kid]);
                        } else {
                            assert(c.gview().edge_in_dst(kid, qv@[t as int].0 as int));
                            assert(visited@[kid]);
                        }
                        assert(false);
                    }
                }
            }
        }
        t = t + 1;
    }
    proof {
        assert forall|kid: int|
            0 <= kid < ns && shares(*c, qv@, kid) implies (exists|m: int|
            0 <= m < cands@.len() && (#[trigger] cands@[m]) == kid) by {
            assert(visited@[kid]);
        }
        assert forall|m: int|
            0 <= m < cands@.len() implies (#[trigger] cands@[m]) < c.kview().len() && shares(
            *c,
            qv@,
            cands@[m] as int,
        ) by {
            assert(visited@[cands@[m] as int]);
        }
    }
    cands
}

/// A key's id-pair list is strictly sorted with positive counts, and its
/// ids are valid gram ids.
#[verifier::rlimit(100)]
#[verifier::spinoff_prover]
pub proof fn lemma_kid_pairs_props(c: Corpus, kid: int)
    requires
        c.corpus_wf(),
        0 <= kid < c.kview().len(),
    ensures
        ({
            let kp = kid_id_pairs(c, kid);
            &&& (forall|j: int| #![trigger kp[j]] 0 <= j < kp.len() - 1 ==> kp[j].0 < kp[j + 1].0)
            &&& (forall|j: int| 0 <= j < kp.len() ==> (#[trigger] kp[j]).1 >= 1)
            &&& (forall|j: int| 0 <= j < kp.len() ==> (#[trigger] kp[j]).0 < c.tview().len())
        }),
{
    let g = c.gview();
    let kp = kid_id_pairs(c, kid);
    let ps = key_pairs(c.cfg(), c.kview()[kid]);
    crate::grams::lemma_spec_pairs_ok(crate::grams::windows_of(c.cfg(), c.kview()[kid]));
    crate::ef::lemma_monotone_pair(g.src_off(), kid + 1, g.src_off().len() - 1);
    assert(g.spec_src_degree(kid) == ps.len());
    assert forall|j: int| #![trigger kp[j]] 0 <= j < kp.len() - 1 implies kp[j].0 < kp[j + 1].0 by {
        let lo = g.src_off()[kid] as int;
        assert(crate::graph::seg_strict_inc(g.s2d(), lo, g.src_off()[kid + 1] as int));
        assert(g.s2d()[lo + j] < g.s2d()[(lo + j) + 1]);
    }
    assert forall|j: int| 0 <= j < kp.len() implies (#[trigger] kp[j]).1 >= 1 by {
        assert(g.wrows()[kid][j] == (#[trigger] key_pairs(c.cfg(), c.kview()[kid])[j]).1);
        assert(crate::grams::pairs_pos(ps));
    }
    assert forall|j: int| 0 <= j < kp.len() implies (#[trigger] kp[j]).0 < c.tview().len() by {
        let lo = g.src_off()[kid] as int;
        assert(g.s2d()[lo + j] < g.spec_num_dst());
    }
}

/// A key shares a gram with the query exactly when their shared weight is
/// positive.
#[verifier::rlimit(100)]
#[verifier::spinoff_prover]
pub proof fn lemma_shares_overlap(c: Corpus, q: Seq<char>, qv: Seq<(usize, usize)>, kid: int)
    requires
        c.corpus_wf(),
        0 <= kid < c.kview().len(),
        qv == query_list(c, q),
        forall|t: int| #![trigger qv[t]] 0 <= t < qv.len() - 1 ==> qv[t].0 < qv[t + 1].0,
        forall|t: int| 0 <= t < qv.len() ==> (#[trigger] qv[t]).1 >= 1,
        forall|t: int| 0 <= t < qv.len() ==> (#[trigger] qv[t]).0 < c.tview().len(),
    ensures
        shares(c, qv, kid) == (spec_overlap(c, q, kid) > 0),
{
    let g = c.gview();
    let kp = kid_id_pairs(c, kid);
    lemma_kid_pairs_props(c, kid);
    lemma_overlap_pos(qv, kp);
    crate::graph::lemma_edge_sets_agree(g);
    crate::ef::lemma_monotone_pair(g.src_off(), kid + 1, g.src_off().len() - 1);
    assert(g.spec_src_degree(kid) == key_pairs(c.cfg(), c.kview()[kid]).len());
    if shares(c, qv, kid) {
        let t = choose|t: int|
            0 <= t < qv.len() && g.edge_in_dst(kid, (#[trigger] qv[t]).0 as int);
        assert(g.edge_in_src(kid, qv[t].0 as int));
        let e = choose|e: int|
            g.src_off()[kid] <= e < g.src_off()[kid + 1] && 0 <= e < g.s2d().len()
                && #[trigger] g.s2d()[e] == qv[t].0;
        let j = e - g.src_off()[kid];
        assert(kp[j].0 == qv[t].0);
        assert(overlap_sum(qv, kp) > 0);
    }
    if spec_overlap(c, q, kid) > 0 {
        let (t, j) = choose|t: int, j: int|
            0 <= t < qv.len() && 0 <= j < kp.len() && (#[trigger] qv[t]).0 == (
            #[trigger] kp[j]).0;
        let e = g.src_off()[kid] + j;
        assert(g.s2d()[e] == qv[t].0);
        assert(g.edge_in_src(kid, qv[t].0 as int)) by {
            assert(g.src_off()[kid] <= e < g.src_off()[kid + 1] && 0 <= e < g.s2d().len()
                && g.s2d()[e] == qv[t].0);
        }
        assert(g.edge_in_dst(kid, qv[t].0 as int));
        assert(shares(c, qv, kid));
    }
}

/// The self-similarity law: a key's score against a query is exactly
/// one if and only if every query n-gram carries its full weight into
/// the table and the query's id-count list equals the key's — that is,
/// the two n-gram multisets coincide. In particular, a key searched with
/// its own text scores one whenever all its grams are indexed, which the
/// rasterizer guarantees.
#[verifier::rlimit(100)]
#[verifier::spinoff_prover]
pub proof fn lemma_score_one_iff(c: Corpus, q: Seq<char>, kid: int)
    requires
        c.corpus_wf(),
        0 <= kid < c.kview().len(),
        c.tview().len() <= usize::MAX,
        crate::grams::windows_of(c.cfg(), q).len() <= usize::MAX,
        spec_nq(c, q) + spec_nk(c, kid) <= usize::MAX,
    ensures
        score_eqv(spec_score(c, q, kid), Score { num: 1, den: 1 }) == (id_total(query_list(c, q))
            == spec_nq(c, q) && query_list(c, q) == kid_id_pairs(c, kid)),
{
    let qv = query_list(c, q);
    let kp = kid_id_pairs(c, kid);
    let ov = spec_overlap(c, q, kid);
    let nq = spec_nq(c, q);
    let nk = spec_nk(c, kid);
    crate::grams::lemma_spec_pairs_ok(crate::grams::windows_of(c.cfg(), q));
    crate::grams::lemma_spec_pairs_sorted(crate::grams::windows_of(c.cfg(), q));
    lemma_query_ids_props(c.tview(), key_pairs(c.cfg(), q));
    lemma_kid_pairs_props(c, kid);
    lemma_overlap_le(qv, kp);
    lemma_id_total_nonneg(kp);
    let sc = spec_score(c, q, kid);
    assert(0 <= ov <= id_total(qv) <= nq);
    assert(ov <= nk);
    assert(sc.num == ov && sc.den == nq + nk - ov);
    assert(score_eqv(sc, Score { num: 1, den: 1 }) == ((sc.num as int) == (sc.den as int)));
    lemma_full_overlap_iff_equal(qv, kp);
    if score_eqv(sc, Score { num: 1, den: 1 }) {
        assert(ov == nq && ov == nk);
        assert(id_total(qv) == nq);
        assert(ov == id_total(qv) && ov == id_total(kp));
        assert(qv == kp);
    }
    if id_total(qv) == nq && qv == kp {
        assert(ov == id_total(qv) && ov == id_total(kp));
        assert(ov == nq && ov == nk);
    }
}

/// Two equal entries at distinct positions give a count of at least two.
pub proof fn lemma_hit_count_two(s: Seq<Hit>, i: int, j: int)
    requires
        0 <= i < j < s.len(),
        s[i] == s[j],
    ensures
        hit_count(s, s[i]) >= 2,
    decreases s.len(),
{
    if i == 0 {
        lemma_hit_index_count(s.drop_first(), j - 1);
        assert(s.drop_first()[j - 1] == s[j]);
    } else {
        lemma_hit_count_two(s.drop_first(), i - 1, j - 1);
        assert(s.drop_first()[i - 1] == s[i]);
        lemma_hit_count_nonneg(s.drop_first(), s[i]);
    }
}

/// The results mirror an id list: entry by entry, the named key's text
/// and score.
pub open spec fn results_match(c: Corpus, rs: Seq<SearchResult>, ids: Seq<(usize, Score)>) -> bool {
    &&& rs.len() == ids.len()
    &&& (forall|i: int|
        #![trigger rs[i]]
        0 <= i < rs.len() ==> (#[trigger] ids[i]).0 < c.kview().len() && rs[i].key_view()
            == c.kview()[ids[i].0 as int] && rs[i].score_view() == ids[i].1)
}

/// Every id in the list is a qualifying key carrying its exact score.
pub open spec fn ids_qualify(c: Corpus, q: Seq<char>, tau: Score, ids: Seq<(usize, Score)>) -> bool {
    forall|i: int|
        0 <= i < ids.len() ==> qualifies(c, q, tau, (#[trigger] ids[i]).0 as int) && ids[i].1
            == spec_score(c, q, ids[i].0 as int)
}

/// Nothing left out beats what was kept: a qualifying key missing from
/// the list lost only because the list holds `k` entries already and the
/// key does not outrank the last of them.
pub open spec fn ids_topk(
    c: Corpus,
    q: Seq<char>,
    tau: Score,
    k: int,
    ids: Seq<(usize, Score)>,
) -> bool {
    forall|kid: int|
        #![trigger qualifies(c, q, tau, kid)]
        qualifies(c, q, tau, kid) && !(exists|i: int|
            0 <= i < ids.len() && (#[trigger] ids[i]).0 == kid) ==> ids.len() == k && (ids.len()
            > 0 ==> !hit_better((((kid as usize), spec_score(c, q, kid))), ids[ids.len() - 1]))
}

impl Corpus {
    /// The best `k` keys for a query, as (key id, exact score) pairs in
    /// descending score order, ties broken by ascending key id. A key is
    /// returned only if it shares an n-gram with the query and scores at
    /// least the threshold; when fewer than `k` qualify, all of them come
    /// back, and a key left out never outranks a key returned.
    #[verifier::rlimit(100)]
    #[verifier::spinoff_prover]
    pub fn search_ids(&self, query: &str, tau: Score, k: usize) -> (r: Vec<(usize, Score)>)
        requires
            self.corpus_wf(),
            tau.den >= 1,
            forall|kid: int|
                0 <= kid < self.kview().len() ==> spec_nq(*self, query@) + #[trigger] spec_nk(
                    *self,
                    kid,
                ) <= usize::MAX,
        ensures
            r@.len() <= k,
            forall|i: int|
                0 <= i < r@.len() ==> qualifies(*self, query@, tau, (#[trigger] r@[i]).0 as int)
                    && r@[i].1 == spec_score(*self, query@, r@[i].0 as int),
            forall|i: int, j: int|
                0 <= i < j < r@.len() ==> !hit_better(#[trigger] r@[j], #[trigger] r@[i]),
            forall|i: int, j: int|
                0 <= i < j < r@.len() ==> (#[trigger] r@[i]).0 != (#[trigger] r@[j]).0,
            r@.len() < k ==> (forall|kid: int|
                qualifies(*self, query@, tau, kid) ==> (exists|i: int|
                    0 <= i < r@.len() && (#[trigger] r@[i]).0 == kid)),
            ids_topk(*self, query@, tau, k as int, r@),
    {
        let ghost q = query@;
        let qps = counts(self.config(), query);
        let ns = self.number_of_keys();
        let ng = self.number_of_ngrams();
        proof {
            lemma_id_total_nonneg(kid_id_pairs(*self, 0));
            assert(spec_nq(*self, q) + spec_nk(*self, 0) <= usize::MAX);
            assert(spec_nq(*self, q) <= usize::MAX);
        }
        let nq = sum_pairs(&qps);
        let qv = query_vec(self, &qps);
        proof {
            lemma_query_ids_props(self.tview(), qps.deep_view());
            assert(qv@ == query_list(*self, q));
        }
        let cands = candidates(self, &qv);
        let hits = self.collect_hits(&qv, nq, tau, &cands, Ghost(q));
        let sorted = sort_hits_exec(hits);
        proof {
            assert(hits_wf(hits@)) by {
                assert forall|i: int| 0 <= i < hits@.len() implies (#[trigger] hits@[i]).1.den
                    >= 1 by {}
            }
            lemma_sort_hits(hits@);
        }
        let mut out: Vec<(usize, Score)> = Vec::new();
        let mut i: usize = 0;
        let stop = if sorted.len() < k {
            sorted.len()
        } else {
            k
        };
        while i < stop
            invariant
                stop <= sorted@.len(),
                stop <= k,
                i <= stop,
                out@ =~= sorted@.subrange(0, i as int),
            decreases stop - i,
        {
            out.push(sorted[i]);
            proof {
                assert(out@ =~= sorted@.subrange(0, i + 1));
            }
            i = i + 1;
        }
        proof {
            assert forall|kid: int|
                qualifies(*self, q, tau, kid) implies 0 <= kid <= usize::MAX by {
                assert(0 <= kid < self.kview().len());
                assert(self.kview().len() == ns);
            }
            lemma_take_topk(
                *self,
                query@,
                tau,
                k as int,
                hits@,
                sorted@,
                out@,
                stop as int,
            );
        }
        out
    }
}

/// The ranked prefix of the scored hits is the top-k answer: entries
/// qualify with exact scores, come in rank order with distinct keys, and
/// no qualifying key outside it outranks its last entry.
#[verifier::rlimit(100)]
#[verifier::spinoff_prover]
proof fn lemma_take_topk(
    c: Corpus,
    q: Seq<char>,
    tau: Score,
    k: int,
    hv: Seq<Hit>,
    sv: Seq<Hit>,
    out: Seq<Hit>,
    stop: int,
)
    requires
        forall|i: int|
            0 <= i < hv.len() ==> qualifies(c, q, tau, (#[trigger] hv[i]).0 as int) && hv[i].1
                == spec_score(c, q, hv[i].0 as int) && hv[i].1.den >= 1,
        forall|i: int, j: int| 0 <= i < j < hv.len() ==> (#[trigger] hv[i]).0 != (#[trigger] hv[j]).0,
        forall|kid: int|
            qualifies(c, q, tau, kid) ==> (exists|i: int|
                0 <= i < hv.len() && (#[trigger] hv[i]).0 == kid),
        hits_sorted(sv),
        hits_wf(sv),
        sv.len() == hv.len(),
        forall|y: Hit| #[trigger] hit_count(sv, y) == hit_count(hv, y),
        0 <= k,
        stop == if sv.len() < k {
            sv.len() as int
        } else {
            k
        },
        out == sv.subrange(0, stop),
        forall|kid: int| qualifies(c, q, tau, kid) ==> 0 <= kid <= usize::MAX,
    ensures
        out.len() <= k,
        forall|i: int|
            0 <= i < out.len() ==> qualifies(c, q, tau, (#[trigger] out[i]).0 as int) && out[i].1
                == spec_score(c, q, out[i].0 as int),
        forall|i: int, j: int|
            0 <= i < j < out.len() ==> !hit_better(#[trigger] out[j], #[trigger] out[i]),
        forall|i: int, j: int|
            0 <= i < j < out.len() ==> (#[trigger] out[i]).0 != (#[trigger] out[j]).0,
        out.len() < k ==> (forall|kid: int|
            qualifies(c, q, tau, kid) ==> (exists|i: int|
                0 <= i < out.len() && (#[trigger] out[i]).0 == kid)),
        ids_topk(c, q, tau, k, out),
{
    // every output entry is one of the hits
    assert forall|i2: int|
        0 <= i2 < out.len() implies qualifies(c, q, tau, (#[trigger] out[i2]).0 as int)
        && out[i2].1 == spec_score(c, q, out[i2].0 as int) by {
        assert(out[i2] == sv[i2]);
        lemma_hit_index_count(sv, i2);
        assert(hit_count(hv, sv[i2]) > 0);
        lemma_hit_count_index(hv, sv[i2]);
    }
    assert forall|i2: int, j2: int|
        0 <= i2 < j2 < out.len() implies !hit_better(#[trigger] out[j2], #[trigger] out[i2]) by {
        lemma_hits_sorted_pair(sv, i2, j2);
    }
    assert forall|i2: int, j2: int|
        0 <= i2 < j2 < out.len() implies (#[trigger] out[i2]).0 != (#[trigger] out[j2]).0 by {
        if out[i2].0 == out[j2].0 {
            lemma_hit_index_count(sv, i2);
            lemma_hit_count_index(hv, sv[i2]);
            lemma_hit_index_count(sv, j2);
            lemma_hit_count_index(hv, sv[j2]);
            let a = choose|a: int| 0 <= a < hv.len() && #[trigger] hv[a] == sv[i2];
            let b = choose|b: int| 0 <= b < hv.len() && #[trigger] hv[b] == sv[j2];
            assert(hv[a].0 == hv[b].0);
            if a != b {
                assert(false);
            }
            assert(sv[i2] == sv[j2]);
            lemma_hit_count_two(sv, i2, j2);
            assert(hit_count(hv, sv[i2]) >= 2);
            lemma_hit_two_positions(hv, sv[i2]);
            let (a2, b2) = choose|a2: int, b2: int|
                0 <= a2 < b2 < hv.len() && #[trigger] hv[a2] == sv[i2] && #[trigger] hv[b2]
                    == sv[i2];
            assert(hv[a2].0 == hv[b2].0);
            assert(false);
        }
    }
    // when nothing was cut off, every qualifying key is present
    if out.len() < k {
        assert(stop == sv.len());
        assert(out =~= sv);
        assert forall|kid: int|
            qualifies(c, q, tau, kid) implies (exists|i2: int|
            0 <= i2 < out.len() && (#[trigger] out[i2]).0 == kid) by {
            let i3 = choose|i3: int| 0 <= i3 < hv.len() && (#[trigger] hv[i3]).0 == kid;
            lemma_hit_index_count(hv, i3);
            assert(hit_count(sv, hv[i3]) > 0);
            lemma_hit_count_index(sv, hv[i3]);
            let p = choose|p: int| 0 <= p < sv.len() && #[trigger] sv[p] == hv[i3];
            assert(out[p].0 == kid);
        }
    }
    // a qualifying key left out never outranks the last returned one
    assert forall|kid: int|
        qualifies(c, q, tau, kid) && !(exists|i2: int|
            0 <= i2 < out.len() && (#[trigger] out[i2]).0 == kid) implies out.len() == k && (
    out.len() > 0 ==> !hit_better(
        (((kid as usize), spec_score(c, q, kid))),
        out[out.len() - 1],
    )) by {
        let i3 = choose|i3: int| 0 <= i3 < hv.len() && (#[trigger] hv[i3]).0 == kid;
        lemma_hit_index_count(hv, i3);
        assert(hit_count(sv, hv[i3]) > 0);
        lemma_hit_count_index(sv, hv[i3]);
        let p = choose|p: int| 0 <= p < sv.len() && #[trigger] sv[p] == hv[i3];
        if p < stop {
            assert(out[p].0 == kid);
            assert(false);
        }
        if out.len() < k {
            assert(stop == sv.len());
            assert(false);
        }
        assert(out.len() == k && stop == k);
        if out.len() > 0 {
            lemma_hits_sorted_pair(sv, stop - 1, p);
            assert(out[out.len() - 1] == sv[stop - 1]);
            assert((kid as usize) as int == kid);
            assert(hv[i3] == (((kid as usize), spec_score(c, q, kid))));
        }
    }
}

/// One fuzzy match: a key and its exact similarity to the query.
pub struct SearchResult {
    key: String,
    score: Score,
}

impl SearchResult {
    /// Builds a search result from its parts.
    pub fn new(key: String, score: Score) -> (r: SearchResult)
        ensures
            r.key_view() == key@,
            r.score_view() == score,
    {
        SearchResult { key, score }
    }

    /// The key's view.
    pub closed spec fn key_view(self) -> Seq<char> {
        self.key@
    }

    /// The score held.
    pub closed spec fn score_view(self) -> Score {
        self.score
    }

    /// The matched key.
    pub fn key(&self) -> (k: String)
        ensures
            k@ == self.key_view(),
    {
        self.key.clone()
    }

    /// The similarity score.
    pub fn score(&self) -> (s: Score)
        ensures
            s == self.score_view(),
    {
        self.score
    }

    /// An owned copy.
    fn duplicate(&self) -> (r: SearchResult)
        ensures
            r.key_view() == self.key_view(),
            r.score_view() == self.score_view(),
    {
        SearchResult { key: self.key.clone(), score: self.score }
    }
}

/// The pushed results as rankable hits: each entry pairs its push rank
/// with its score, so that [`hit_better`] orders by score first and by
/// earlier push on ties.
pub open spec fn heap_hits(pushed: Seq<SearchResult>) -> Seq<Hit> {
    Seq::new(pushed.len(), |t: int| (((t as usize), pushed[t].score_view())))
}

/// Keeps the best `n` results pushed into it; pushes are ranked by score,
/// ties broken in favor of the earlier push.
pub struct SearchResultsHeap {
    items: Vec<SearchResult>,
    n: usize,
}

impl SearchResultsHeap {
    /// Everything pushed so far, in push order.
    pub closed spec fn pushed(self) -> Seq<SearchResult> {
        self.items@
    }

    /// The bound it was created with.
    pub closed spec fn bound(self) -> int {
        self.n as int
    }

    /// An empty collector for the best `n` results.
    pub fn new(n: usize) -> (h: SearchResultsHeap)
        ensures
            h.pushed() == Seq::<SearchResult>::empty(),
            h.bound() == n,
    {
        SearchResultsHeap { items: Vec::new(), n }
    }

    /// Records one result; the bound is applied when the collector is
    /// drained.
    pub fn push(&mut self, search_result: SearchResult)
        ensures
            final(self).pushed() == old(self).pushed().push(search_result),
            final(self).bound() == old(self).bound(),
    {
        self.items.push(search_result);
    }

    /// The best `n` results, highest score first: entry `i` is the
    /// pushed result whose (score, push rank) places i-th, so equal
    /// scores resolve in favor of the earlier push and nothing kept is
    /// outscored by anything dropped.
    pub fn into_sorted_vec(self) -> (r: Vec<SearchResult>)
        requires
            forall|i: int|
                0 <= i < self.pushed().len() ==> (#[trigger] self.pushed()[i]).score_view().den
                    >= 1,
        ensures
            r@.len() == if self.pushed().len() <= self.bound() {
                self.pushed().len() as int
            } else {
                self.bound()
            },
            forall|i: int, j: int|
                0 <= i < j < r@.len() ==> !score_lt(
                (#[trigger] r@[i]).score_view(),
                (#[trigger] r@[j]).score_view(),
            ),
            forall|i: int|
                0 <= i < r@.len() ==> (exists|j: int|
                    0 <= j < self.pushed().len() && (#[trigger] r@[i]).key_view()
                        == self.pushed()[j].key_view() && r@[i].score_view()
                        == self.pushed()[j].score_view()),
            forall|i: int|
                0 <= i < r@.len() ==> sort_hits(heap_hits(self.pushed()))[i].0 < self.pushed().len()
                    && (#[trigger] r@[i]).key_view() == self.pushed()[sort_hits(
                    heap_hits(self.pushed()),
                )[i].0 as int].key_view() && r@[i].score_view() == sort_hits(
                    heap_hits(self.pushed()),
                )[i].1,
    {
        let ghost pv = self.items@;
        let mut hs: Vec<(usize, Score)> = Vec::new();
        let mut i: usize = 0;
        while i < self.items.len()
            invariant
                i <= pv.len(),
                pv == self.items@,
                hs@.len() == i,
                forall|t: int|
                    0 <= t < i ==> (#[trigger] hs@[t]) == ((t as usize, pv[t].score)),
            decreases pv.len() - i,
        {
            hs.push((i, self.items[i].score));
            i = i + 1;
        }
        proof {
            assert(hits_wf(hs@)) by {
                assert forall|t: int| 0 <= t < hs@.len() implies (#[trigger] hs@[t]).1.den
                    >= 1 by {
                    assert(hs@[t] == ((t as usize, pv[t].score)));
                    assert((#[trigger] self.pushed()[t]).score_view().den >= 1);
                }
            }
            lemma_sort_hits(hs@);
            assert(hs@ =~= heap_hits(pv));
        }
        let sorted = sort_hits_exec(hs);
        let stop = if sorted.len() < self.n {
            sorted.len()
        } else {
            self.n
        };
        let mut out: Vec<SearchResult> = Vec::new();
        let mut p: usize = 0;
        while p < stop
            invariant
                stop <= sorted@.len(),
                stop <= self.n,
                sorted@ == sort_hits(hs@),
                hits_wf(hs@),
                hits_wf(sorted@),
                hits_sorted(sorted@),
                hs@.len() == pv.len(),
                pv == self.items@,
                forall|t: int|
                    0 <= t < hs@.len() ==> (#[trigger] hs@[t]) == ((t as usize, pv[t].score)),
                forall|y: Hit| #[trigger] hit_count(sorted@, y) == hit_count(hs@, y),
                p <= stop,
                out@.len() == p,
                forall|i2: int, j2: int|
                    0 <= i2 < j2 < out@.len() ==> !score_lt(
                    (#[trigger] out@[i2]).score,
                    (#[trigger] out@[j2]).score,
                ),
                forall|i2: int|
                    0 <= i2 < out@.len() ==> (#[trigger] out@[i2]).score == sorted@[i2].1 && (
                    exists|j2: int|
                        0 <= j2 < pv.len() && out@[i2].key@ == (#[trigger] pv[j2]).key@
                            && out@[i2].score == pv[j2].score),
                forall|i2: int|
                    #![trigger sorted@[i2]]
                    0 <= i2 < out@.len() ==> sorted@[i2].0 < pv.len() && out@[i2].key@
                        == pv[sorted@[i2].0 as int].key@,
            decreases stop - p,
        {
            proof {
                lemma_hit_index_count(sorted@, p as int);
                lemma_hit_count_index(hs@, sorted@[p as int]);
                let t = choose|t: int| 0 <= t < hs@.len() && #[trigger] hs@[t] == sorted@[p as int];
                assert(hs@[t].0 == t);
                assert(sorted@[p as int].0 == t && sorted@[p as int].1 == pv[t].score);
                assert(sorted@[p as int].0 < pv.len());
            }
            let idx = sorted[p].0;
            let item = self.items[idx].duplicate();
            let ghost oldout = out@;
            out.push(item);
            proof {
                assert(item.key_view() == pv[idx as int].key_view() && item.score_view() == pv[
                    idx as int].score_view());
                assert(out@[out@.len() - 1] == item);
                assert(item.score == pv[idx as int].score);
                assert(item.score == sorted@[p as int].1);
                assert(item.key@ == pv[idx as int].key@);
                assert forall|i2: int|
                    #![trigger sorted@[i2]]
                    0 <= i2 < out@.len() implies sorted@[i2].0 < pv.len() && out@[i2].key@
                    == pv[sorted@[i2].0 as int].key@ by {
                    if i2 == out@.len() - 1 {
                        assert(out@[i2] == item);
                    } else {
                        assert(out@[i2] == oldout[i2]);
                    }
                }
                assert forall|i2: int, j2: int|
                    0 <= i2 < j2 < out@.len() implies !score_lt(
                    (#[trigger] out@[i2]).score,
                    (#[trigger] out@[j2]).score,
                ) by {
                    if j2 == out@.len() - 1 {
                        lemma_hits_sorted_pair(sorted@, i2, p as int);
                        assert(out@[i2].score == sorted@[i2].1);
                    }
                }
            }
            p = p + 1;
        }
        proof {
            assert(self.pushed() == pv);
            assert forall|i2: int|
                0 <= i2 < out@.len() implies (exists|j: int|
                0 <= j < pv.len() && (#[trigger] out@[i2]).key_view() == pv[j].key_view()
                    && out@[i2].score_view() == pv[j].score_view()) by {
                let j2 = choose|j2: int|
                    0 <= j2 < pv.len() && out@[i2].key@ == (#[trigger] pv[j2]).key@ && out@[i2].score
                        == pv[j2].score;
                assert(0 <= j2 < pv.len() && out@[i2].key_view() == pv[j2].key_view()
                    && out@[i2].score_view() == pv[j2].score_view());
            }
        }
        out
    }
}

/// Every returned match carries some qualifying key's text together with
/// that key's exact score.
pub open spec fn results_sound(c: Corpus, q: Seq<char>, tau: Score, rs: Seq<SearchResult>) -> bool {
    forall|i: int|
        #![trigger rs[i]]
        0 <= i < rs.len() ==> (exists|kid: int|
            #![trigger qualifies(c, q, tau, kid)]
            qualifies(c, q, tau, kid) && rs[i].key_view() == c.kview()[kid] && rs[i].score_view()
                == spec_score(c, q, kid))
}

impl Corpus {
    /// The best `k` keys for a query: each returned match carries a key's
    /// text and its exact score, in descending score order with ties
    /// broken by ascending key id.
    pub fn search(&self, query: &str, tau: Score, k: usize) -> (r: Vec<SearchResult>)
        requires
            self.corpus_wf(),
            tau.den >= 1,
            forall|kid: int|
                0 <= kid < self.kview().len() ==> spec_nq(*self, query@) + #[trigger] spec_nk(
                    *self,
                    kid,
                ) <= usize::MAX,
        ensures
            r@.len() <= k,
            exists|ids: Seq<(usize, Score)>|
                #![trigger results_match(*self, r@, ids)]
                results_match(*self, r@, ids) && ids_qualify(*self, query@, tau, ids)
                    && ids_topk(*self, query@, tau, k as int, ids),
            forall|i: int, j: int|
                0 <= i < j < r@.len() ==> !score_lt(
                (#[trigger] r@[i]).score_view(),
                (#[trigger] r@[j]).score_view(),
            ),
    {
        let ids = self.search_ids(query, tau, k);
        let mut r: Vec<SearchResult> = Vec::new();
        let mut i: usize = 0;
        while i < ids.len()
            invariant
                self.corpus_wf(),
                forall|i2: int|
                    0 <= i2 < ids@.len() ==> qualifies(
                        *self,
                        query@,
                        tau,
                        (#[trigger] ids@[i2]).0 as int,
                    ) && ids@[i2].1 == spec_score(*self, query@, ids@[i2].0 as int),
                forall|i2: int, j2: int|
                    0 <= i2 < j2 < ids@.len() ==> !hit_better(
                    #[trigger] ids@[j2],
                    #[trigger] ids@[i2],
                ),
                i <= ids@.len(),
                r@.len() == i,
                forall|i2: int|
                    0 <= i2 < i ==> (#[trigger] r@[i2]).key_view() == self.kview()[ids@[i2].0 as int]
                        && r@[i2].score_view() == ids@[i2].1,
            decreases ids@.len() - i,
        {
            let kid = ids[i].0;
            let key = self.key_from_id(kid).clone();
            r.push(SearchResult { key, score: ids[i].1 });
            i = i + 1;
        }
        proof {
            assert forall|i2: int, j2: int|
                0 <= i2 < j2 < r@.len() implies !score_lt(
                (#[trigger] r@[i2]).score_view(),
                (#[trigger] r@[j2]).score_view(),
            ) by {
                assert(!hit_better(ids@[j2], ids@[i2]));
            }
            assert(results_match(*self, r@, ids@));
            assert(ids_qualify(*self, query@, tau, ids@));
            assert(exists|ids2: Seq<(usize, Score)>|
                #![trigger results_match(*self, r@, ids2)]
                results_match(*self, r@, ids2) && ids_qualify(*self, query@, tau, ids2)
                    && ids_topk(*self, query@, tau, k as int, ids2)) by {
                assert(results_match(*self, r@, ids@) && ids_qualify(*self, query@, tau, ids@)
                    && ids_topk(*self, query@, tau, k as int, ids@));
            }
        }
        r
    }
}

/// A count of at least two puts the value at two distinct positions.
proof fn lemma_hit_two_positions(s: Seq<Hit>, y: Hit)
    requires
        hit_count(s, y) >= 2,
    ensures
        exists|a: int, b: int| 0 <= a < b < s.len() && #[trigger] s[a] == y && #[trigger] s[b] == y,
    decreases s.len(),
{
    if s.len() > 0 {
        if s[0] == y {
            lemma_hit_count_index(s.drop_first(), y);
            let b = choose|b: int| 0 <= b < s.drop_first().len() && #[trigger] s.drop_first()[b]
                == y;
            assert(s[b + 1] == y);
            assert(s[0] == y && s[b + 1] == y && 0 < b + 1 < s.len());
        } else {
            lemma_hit_two_positions(s.drop_first(), y);
            let (a, b) = choose|a: int, b: int|
                0 <= a < b < s.drop_first().len() && #[trigger] s.drop_first()[a] == y
                    && #[trigger] s.drop_first()[b] == y;
            assert(s[a + 1] == y && s[b + 1] == y);
        }
    }
}

impl Corpus {
    /// Scores every candidate key and keeps those at or above the
    /// threshold, with their exact scores.
    #[verifier::rlimit(100)]
    #[verifier::spinoff_prover]
    fn collect_hits(
        &self,
        qv: &Vec<(usize, usize)>,
        nq: usize,
        tau: Score,
        cands: &Vec<usize>,
        Ghost(q): Ghost<Seq<char>>,
    ) -> (hits: Vec<(usize, Score)>)
        requires
            self.corpus_wf(),
            tau.den >= 1,
            forall|kid: int|
                0 <= kid < self.kview().len() ==> spec_nq(*self, q) + #[trigger] spec_nk(
                    *self,
                    kid,
                ) <= usize::MAX,
            nq == spec_nq(*self, q),
            qv@ == query_list(*self, q),
            forall|t: int| #![trigger qv@[t]] 0 <= t < qv@.len() - 1 ==> qv@[t].0 < qv@[t + 1].0,
            forall|t: int| 0 <= t < qv@.len() ==> (#[trigger] qv@[t]).1 >= 1,
            forall|t: int| 0 <= t < qv@.len() ==> (#[trigger] qv@[t]).0 < self.tview().len(),
            id_total(qv@) <= usize::MAX,
            id_total(qv@) <= spec_nq(*self, q),
            forall|m2: int|
                0 <= m2 < cands@.len() ==> (#[trigger] cands@[m2]) < self.kview().len() && shares(
                    *self,
                    qv@,
                    cands@[m2] as int,
                ),
            forall|m2: int, m3: int|
                0 <= m2 < m3 < cands@.len() ==> (#[trigger] cands@[m2]) != (#[trigger] cands@[m3]),
            forall|kid: int|
                0 <= kid < self.kview().len() && shares(*self, qv@, kid) ==> (exists|m2: int|
                    0 <= m2 < cands@.len() && (#[trigger] cands@[m2]) == kid),
        ensures
            forall|i: int|
                0 <= i < hits@.len() ==> qualifies(*self, q, tau, (#[trigger] hits@[i]).0 as int)
                    && hits@[i].1 == spec_score(*self, q, hits@[i].0 as int) && hits@[i].1.den
                    >= 1,
            forall|i: int, j: int|
                0 <= i < j < hits@.len() ==> (#[trigger] hits@[i]).0 != (#[trigger] hits@[j]).0,
            forall|kid: int|
                qualifies(*self, q, tau, kid) ==> (exists|i: int|
                    0 <= i < hits@.len() && (#[trigger] hits@[i]).0 == kid),
    {
        let mut hits: Vec<(usize, Score)> = Vec::new();
        let mut m: usize = 0;
        while m < cands.len()
            invariant
                self.corpus_wf(),
                tau.den >= 1,
                forall|kid: int|
                    0 <= kid < self.kview().len() ==> spec_nq(*self, q) + #[trigger] spec_nk(
                        *self,
                        kid,
                    ) <= usize::MAX,
                nq == spec_nq(*self, q),
                qv@ == query_list(*self, q),
                forall|t: int| #![trigger qv@[t]] 0 <= t < qv@.len() - 1 ==> qv@[t].0 < qv@[t + 1].0,
                forall|t: int| 0 <= t < qv@.len() ==> (#[trigger] qv@[t]).1 >= 1,
                forall|t: int| 0 <= t < qv@.len() ==> (#[trigger] qv@[t]).0 < self.tview().len(),
                id_total(qv@) <= usize::MAX,
                id_total(qv@) <= spec_nq(*self, q),
                forall|m2: int|
                    0 <= m2 < cands@.len() ==> (#[trigger] cands@[m2]) < self.kview().len()
                        && shares(*self, qv@, cands@[m2] as int),
                forall|m2: int, m3: int|
                    0 <= m2 < m3 < cands@.len() ==> (#[trigger] cands@[m2]) != (
                    #[trigger] cands@[m3]),
                m <= cands@.len(),
                forall|i: int|
                    0 <= i < hits@.len() ==> qualifies(*self, q, tau, (#[trigger] hits@[i]).0 as int)
                        && hits@[i].1 == spec_score(*self, q, hits@[i].0 as int) && hits@[i].1.den
                        >= 1,
                forall|i: int|
                    0 <= i < hits@.len() ==> (exists|m2: int|
                        0 <= m2 < m && (#[trigger] hits@[i]).0 == cands@[m2]),
                forall|i: int, j: int|
                    0 <= i < j < hits@.len() ==> (#[trigger] hits@[i]).0 != (
                    #[trigger] hits@[j]).0,
                forall|m2: int|
                    0 <= m2 < m && qualifies(*self, q, tau, (#[trigger] cands@[m2]) as int) ==> (
                    exists|i: int|
                        0 <= i < hits@.len() && (#[trigger] hits@[i]).0 == cands@[m2]),
            decreases cands@.len() - m,
        {
            let kid = cands[m];
            let pairs = self.ngram_ids_and_cooccurrences_from_key(kid);
            proof {
                assert(pairs@ =~= kid_id_pairs(*self, kid as int));
                lemma_shares_overlap(*self, q, qv@, kid as int);
                lemma_overlap_le(qv@, pairs@);
                lemma_id_total_nonneg(pairs@);
                assert(spec_nq(*self, q) + spec_nk(*self, kid as int) <= usize::MAX);
            }
            let ov = merge_overlap(&qv, &pairs);
            let ghost oldhits = hits@;
            if ov > 0 {
                let nk = sum_ids(&pairs);
                let den = nq + nk - ov;
                let sc = Score { num: ov, den };
                proof {
                    assert(ov <= nk);
                    assert(ov <= nq);
                    assert(den >= nk >= ov >= 1);
                }
                let o = score_cmp(&sc, &tau);
                if o >= 0 {
                    hits.push((kid, sc));
                    proof {
                        assert(spec_overlap(*self, q, kid as int) == ov);
                        assert(spec_nk(*self, kid as int) == nk);
                        assert(sc == spec_score(*self, q, kid as int));
                        assert(qualifies(*self, q, tau, kid as int));
                        assert forall|i: int|
                            0 <= i < hits@.len() implies qualifies(
                            *self,
                            q,
                            tau,
                            (#[trigger] hits@[i]).0 as int,
                        ) && hits@[i].1 == spec_score(*self, q, hits@[i].0 as int)
                            && hits@[i].1.den >= 1 by {
                            if i < oldhits.len() {
                                assert(hits@[i] == oldhits[i]);
                            } else {
                                assert(hits@[i] == ((kid, sc)));
                            }
                        }
                        assert forall|i: int, j: int|
                            0 <= i < j < hits@.len() implies (#[trigger] hits@[i]).0 != (
                        #[trigger] hits@[j]).0 by {
                            if j == hits@.len() - 1 {
                                let m2 = choose|m2: int|
                                    0 <= m2 < m && (#[trigger] oldhits[i]).0 == cands@[m2];
                                assert(cands@[m2] != cands@[m as int]);
                            }
                        }
                    }
                }
            }
            proof {
                assert forall|m2: int|
                    0 <= m2 < m + 1 && qualifies(*self, q, tau, (#[trigger] cands@[m2]) as int)
                    implies (exists|i: int|
                    0 <= i < hits@.len() && (#[trigger] hits@[i]).0 == cands@[m2]) by {
                    if m2 < m {
                        let i = choose|i: int|
                            0 <= i < oldhits.len() && (#[trigger] oldhits[i]).0 == cands@[m2];
                        assert(hits@[i].0 == cands@[m2]);
                    } else {
                        assert(hits@[hits@.len() - 1].0 == cands@[m2]);
                    }
                }
            }
            m = m + 1;
        }
        proof {
            assert forall|kid: int|
                qualifies(*self, q, tau, kid) implies (exists|i: int|
                0 <= i < hits@.len() && (#[trigger] hits@[i]).0 == kid) by {
                lemma_shares_overlap(*self, q, qv@, kid);
                assert(shares(*self, qv@, kid));
                let m2 = choose|m2: int| 0 <= m2 < cands@.len() && (#[trigger] cands@[m2]) == kid;
            }
        }
        hits
    }
}

} // verus!
