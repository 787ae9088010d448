//! Gram extraction: normalization, padding, sliding windows, and the
//! per-key sorted list of (n-gram, count) pairs that the rasterizer ingests.
//!
//! An n-gram is held as a `Vec<u32>` of Unicode scalar values, ordered
//! lexicographically.

use vstd::prelude::*;

verus! {

// ===================== lexicographic order =====================

/// Strict lexicographic order on gram sequences.
pub open spec fn lex_lt(a: Seq<u32>, b: Seq<u32>) -> bool
    decreases a.len() + b.len(),
{
    if b.len() == 0 {
        false
    } else if a.len() == 0 {
        true
    } else if a[0] < b[0] {
        true
    } else if a[0] > b[0] {
        false
    } else {
        lex_lt(a.drop_first(), b.drop_first())
    }
}

/// Exactly one of `lex_lt(a, b)`, `a == b`, `lex_lt(b, a)` holds.
pub proof fn lemma_lex_trichotomy(a: Seq<u32>, b: Seq<u32>)
    ensures
        lex_lt(a, b) || lex_lt(b, a) || a == b,
        lex_lt(a, b) ==> !lex_lt(b, a) && a != b,
        lex_lt(b, a) ==> !lex_lt(a, b) && a != b,
    decreases a.len() + b.len(),
{
    if a.len() == 0 && b.len() == 0 {
        assert(a =~= b);
    } else if a.len() > 0 && b.len() > 0 {
        if a[0] == b[0] {
            lemma_lex_trichotomy(a.drop_first(), b.drop_first());
            if a.drop_first() == b.drop_first() {
                assert(a =~= b) by {
                    assert(a.len() == b.len());
                    assert forall|j: int| 0 <= j < a.len() implies a[j] == b[j] by {
                        if j > 0 {
                            assert(a.drop_first()[j - 1] == b.drop_first()[j - 1]);
                        }
                    }
                }
            }
            if a == b {
                assert(a.drop_first() =~= b.drop_first());
            }
        }
    }
}

/// Lexicographic order is transitive.
pub proof fn lemma_lex_trans(a: Seq<u32>, b: Seq<u32>, c: Seq<u32>)
    requires
        lex_lt(a, b),
        lex_lt(b, c),
    ensures
        lex_lt(a, c),
    decreases a.len() + b.len() + c.len(),
{
    if a.len() == 0 {
        // c.len() > 0 since lex_lt(b, c) demands it
    } else {
        // b.len() > 0 and c.len() > 0
        if a[0] == b[0] && b[0] == c[0] {
            lemma_lex_trans(a.drop_first(), b.drop_first(), c.drop_first());
        }
    }
}

/// A common prefix reduces the comparison to the tails.
pub proof fn lemma_lex_skip(a: Seq<u32>, b: Seq<u32>, i: int)
    requires
        0 <= i <= a.len(),
        0 <= i <= b.len(),
        a.subrange(0, i) == b.subrange(0, i),
    ensures
        lex_lt(a, b) == lex_lt(a.skip(i), b.skip(i)),
    decreases i,
{
    if i > 0 {
        assert(a.subrange(0, i)[0] == b.subrange(0, i)[0]);
        assert(a.subrange(0, i)[0] == a[0]);
        assert(b.subrange(0, i)[0] == b[0]);
        assert(a[0] == b[0]);
        assert(a.len() > 0 && b.len() > 0);
        assert(lex_lt(a, b) == lex_lt(a.drop_first(), b.drop_first()));
        assert(a.drop_first().subrange(0, i - 1) =~= b.drop_first().subrange(0, i - 1)) by {
            assert forall|j: int| 0 <= j < i - 1 implies #[trigger] a.drop_first()[j]
                == b.drop_first()[j] by {
                assert(a.subrange(0, i)[j + 1] == b.subrange(0, i)[j + 1]);
                assert(a.subrange(0, i)[j + 1] == a[j + 1]);
                assert(b.subrange(0, i)[j + 1] == b[j + 1]);
                assert(a.drop_first()[j] == a[j + 1]);
                assert(b.drop_first()[j] == b[j + 1]);
            }
        }
        lemma_lex_skip(a.drop_first(), b.drop_first(), i - 1);
        assert(lex_lt(a.drop_first(), b.drop_first()) == lex_lt(
            a.drop_first().skip(i - 1),
            b.drop_first().skip(i - 1),
        ));
        assert(a.drop_first().skip(i - 1) =~= a.skip(i));
        assert(b.drop_first().skip(i - 1) =~= b.skip(i));
        assert(lex_lt(a.drop_first().skip(i - 1), b.drop_first().skip(i - 1)) == lex_lt(
            a.skip(i),
            b.skip(i),
        ));
    } else {
        assert(a.skip(0) =~= a);
        assert(b.skip(0) =~= b);
    }
}

/// Three-way comparison deciding the lexicographic order of two grams.
pub fn lex_cmp(a: &Vec<u32>, b: &Vec<u32>) -> (o: i32)
    ensures
        (o < 0) == lex_lt(a@, b@),
        (o == 0) == (a@ == b@),
        (o > 0) == lex_lt(b@, a@),
{
    proof {
        lemma_lex_trichotomy(a@, b@);
    }
    let mut i: usize = 0;
    while i < a.len() && i < b.len()
        invariant
            i <= a.len(),
            i <= b.len(),
            a@.subrange(0, i as int) =~= b@.subrange(0, i as int),
        decreases a.len() - i,
    {
        let x = a[i];
        let y = b[i];
        if x < y {
            proof {
                lemma_lex_skip(a@, b@, i as int);
                assert(a@.skip(i as int)[0] == x && b@.skip(i as int)[0] == y);
                lemma_lex_trichotomy(a@, b@);
            }
            return -1;
        }
        if x > y {
            proof {
                lemma_lex_skip(a@, b@, i as int);
                assert(a@.skip(i as int)[0] == x && b@.skip(i as int)[0] == y);
                lemma_lex_trichotomy(a@, b@);
            }
            return 1;
        }
        proof {
            assert(a@.subrange(0, i + 1) =~= b@.subrange(0, i + 1)) by {
                assert forall|j: int| 0 <= j < i + 1 implies #[trigger] a@.subrange(0, i + 1)[j]
                    == b@.subrange(0, i + 1)[j] by {
                    if j < i {
                        assert(a@.subrange(0, i as int)[j] == b@.subrange(0, i as int)[j]);
                    }
                }
            }
        }
        i = i + 1;
    }
    proof {
        lemma_lex_skip(a@, b@, i as int);
        lemma_lex_trichotomy(a@, b@);
    }
    if a.len() == b.len() {
        proof {
            assert(a@.subrange(0, i as int) =~= a@);
            assert(b@.subrange(0, i as int) =~= b@);
            assert(a@ =~= b@);
        }
        0
    } else if a.len() < b.len() {
        -1
    } else {
        1
    }
}

// ===================== normalization and windows =====================

/// ASCII case folding on a Unicode scalar value.
pub open spec fn lower_u32(c: u32) -> u32 {
    if 65 <= c <= 90 {
        (c + 32) as u32
    } else {
        c
    }
}

/// A key's characters as scalar values, case-folded when asked.
pub open spec fn norm_seq(s: Seq<char>, lowercase: bool) -> Seq<u32> {
    Seq::new(
        s.len(),
        |i: int|
            if lowercase {
                lower_u32(s[i] as u32)
            } else {
                s[i] as u32
            },
    )
}

/// Normalizes a key into its gram sequence.
pub fn norm_str(s: &str, lowercase: bool) -> (v: Vec<u32>)
    ensures
        v@ == norm_seq(s@, lowercase),
{
    let n = s.unicode_len();
    let mut v: Vec<u32> = Vec::new();
    let mut i: usize = 0;
    while i < n
        invariant
            n == s@.len(),
            i <= n,
            v@ =~= norm_seq(s@, lowercase).subrange(0, i as int),
        decreases n - i,
    {
        let c = s.get_char(i);
        let u = c as u32;
        let g: u32 = if lowercase {
            if 65 <= u && u <= 90 {
                u + 32
            } else {
                u
            }
        } else {
            u
        };
        v.push(g);
        proof {
            assert(v@ =~= norm_seq(s@, lowercase).subrange(0, i + 1));
        }
        i = i + 1;
    }
    proof {
        assert(norm_seq(s@, lowercase).subrange(0, n as int) =~= norm_seq(s@, lowercase));
    }
    v
}

/// All length-`k` sliding windows over a padded gram sequence.
pub open spec fn spec_windows(p: Seq<u32>, k: nat) -> Seq<Seq<u32>> {
    if k == 0 || p.len() < k {
        Seq::empty()
    } else {
        Seq::new((p.len() - k + 1) as nat, |i: int| p.subrange(i, i + k))
    }
}

/// Extracts the sliding windows of length `k`.
pub fn windows(p: &Vec<u32>, k: usize) -> (w: Vec<Vec<u32>>)
    requires
        1 <= k,
    ensures
        w.deep_view() == spec_windows(p@, k as nat),
{
    let mut w: Vec<Vec<u32>> = Vec::new();
    if p.len() < k {
        proof {
            assert(w.deep_view() =~= spec_windows(p@, k as nat));
        }
        return w;
    }
    let count = p.len() - k + 1;
    let mut i: usize = 0;
    while i < count
        invariant
            1 <= k <= p.len(),
            count == p@.len() - k + 1,
            i <= count,
            w@.len() == i,
            w.deep_view() =~= spec_windows(p@, k as nat).subrange(0, i as int),
        decreases count - i,
    {
        let mut g: Vec<u32> = Vec::new();
        let mut j: usize = 0;
        while j < k
            invariant
                1 <= k <= p.len(),
                i + k <= p@.len() + 1,
                i < count == p@.len() - k + 1,
                j <= k,
                g@ =~= p@.subrange(i as int, i + j),
            decreases k - j,
        {
            g.push(p[i + j]);
            proof {
                assert(g@ =~= p@.subrange(i as int, i + j + 1));
            }
            j = j + 1;
        }
        w.push(g);
        proof {
            assert(w.deep_view() =~= spec_windows(p@, k as nat).subrange(0, i + 1)) by {
                let s = spec_windows(p@, k as nat);
                assert forall|t: int| 0 <= t < i + 1 implies w.deep_view()[t] == s.subrange(
                    0,
                    i + 1,
                )[t] by {
                    if t < i {
                        assert(w.deep_view()[t] == s.subrange(0, i as int)[t]);
                    }
                }
            }
        }
        i = i + 1;
    }
    proof {
        assert(spec_windows(p@, k as nat).subrange(0, count as int) =~= spec_windows(
            p@,
            k as nat,
        ));
    }
    w
}

// ===================== configuration =====================

/// Fixed build-time choices: arity, the explicit pads, and case folding.
pub struct NgramConfig {
    /// The n-gram arity.
    pub arity: usize,
    /// Grams prepended to every key and query.
    pub pad_left: Vec<u32>,
    /// Grams appended to every key and query.
    pub pad_right: Vec<u32>,
    /// Whether ASCII letters are folded to lower case.
    pub lowercase: bool,
}

/// The padded, normalized gram sequence of a key under a configuration.
pub open spec fn padded_of(cfg: NgramConfig, key: Seq<char>) -> Seq<u32> {
    cfg.pad_left@ + norm_seq(key, cfg.lowercase) + cfg.pad_right@
}

/// The n-gram occurrence sequence of a key under a configuration.
pub open spec fn windows_of(cfg: NgramConfig, key: Seq<char>) -> Seq<Seq<u32>> {
    spec_windows(padded_of(cfg, key), cfg.arity as nat)
}

/// Returns the n-grams of a key, in occurrence order.
pub fn grams(cfg: &NgramConfig, key: &str) -> (w: Vec<Vec<u32>>)
    requires
        cfg.arity >= 1,
    ensures
        w.deep_view() == windows_of(*cfg, key@),
{
    let norm = norm_str(key, cfg.lowercase);
    let mut padded: Vec<u32> = Vec::new();
    let mut i: usize = 0;
    while i < cfg.pad_left.len()
        invariant
            i <= cfg.pad_left@.len(),
            padded@ =~= cfg.pad_left@.subrange(0, i as int),
        decreases cfg.pad_left@.len() - i,
    {
        padded.push(cfg.pad_left[i]);
        proof {
            assert(padded@ =~= cfg.pad_left@.subrange(0, i + 1));
        }
        i = i + 1;
    }
    proof {
        assert(padded@ =~= cfg.pad_left@);
    }
    let mut j: usize = 0;
    while j < norm.len()
        invariant
            j <= norm@.len(),
            padded@ =~= cfg.pad_left@ + norm@.subrange(0, j as int),
        decreases norm@.len() - j,
    {
        padded.push(norm[j]);
        proof {
            assert(padded@ =~= cfg.pad_left@ + norm@.subrange(0, j + 1));
        }
        j = j + 1;
    }
    proof {
        assert(padded@ =~= cfg.pad_left@ + norm@);
    }
    let mut t: usize = 0;
    while t < cfg.pad_right.len()
        invariant
            t <= cfg.pad_right@.len(),
            padded@ =~= cfg.pad_left@ + norm@ + cfg.pad_right@.subrange(0, t as int),
        decreases cfg.pad_right@.len() - t,
    {
        padded.push(cfg.pad_right[t]);
        proof {
            assert(padded@ =~= cfg.pad_left@ + norm@ + cfg.pad_right@.subrange(0, t + 1));
        }
        t = t + 1;
    }
    proof {
        assert(padded@ =~= padded_of(*cfg, key@));
    }
    windows(&padded, cfg.arity)
}

// ===================== per-key (n-gram, count) pairs =====================

/// One pair: an n-gram and how often it occurs in the key.
pub type GramCount = (Seq<u32>, usize);

/// Inserts one occurrence of `g` into a sorted pair list.
pub open spec fn pair_insert(ps: Seq<GramCount>, g: Seq<u32>) -> Seq<GramCount>
    decreases ps.len(),
{
    if ps.len() == 0 {
        seq![(g, 1usize)]
    } else if lex_lt(g, ps[0].0) {
        seq![(g, 1usize)] + ps
    } else if g == ps[0].0 {
        seq![(ps[0].0, ((ps[0].1 + 1) as usize))] + ps.drop_first()
    } else {
        seq![ps[0]] + pair_insert(ps.drop_first(), g)
    }
}

/// The sorted (n-gram, count) pairs of an occurrence sequence.
pub open spec fn spec_pairs(ws: Seq<Seq<u32>>) -> Seq<GramCount>
    decreases ws.len(),
{
    if ws.len() == 0 {
        Seq::empty()
    } else {
        pair_insert(spec_pairs(ws.drop_last()), ws.last())
    }
}

/// Adjacent entries are strictly increasing in the n-gram.
pub open spec fn pairs_sorted(ps: Seq<GramCount>) -> bool {
    forall|i: int| 0 <= i < ps.len() - 1 ==> lex_lt(#[trigger] ps[i].0, ps[i + 1].0)
}

/// Every count is at least one.
pub open spec fn pairs_pos(ps: Seq<GramCount>) -> bool {
    forall|i: int| 0 <= i < ps.len() ==> (#[trigger] ps[i]).1 >= 1
}

/// Sum of all counts.
pub open spec fn pairs_total(ps: Seq<GramCount>) -> int
    decreases ps.len(),
{
    if ps.len() == 0 {
        0
    } else {
        ps[0].1 + pairs_total(ps.drop_first())
    }
}

/// The count recorded for `g`, or zero when `g` has no entry.
pub open spec fn pairs_count(ps: Seq<GramCount>, g: Seq<u32>) -> int
    decreases ps.len(),
{
    if ps.len() == 0 {
        0
    } else if ps[0].0 == g {
        ps[0].1 as int
    } else {
        pairs_count(ps.drop_first(), g)
    }
}

/// How often `g` occurs in an occurrence sequence.
pub open spec fn occ_count(ws: Seq<Seq<u32>>, g: Seq<u32>) -> int
    decreases ws.len(),
{
    if ws.len() == 0 {
        0
    } else {
        occ_count(ws.drop_last(), g) + if ws.last() == g {
            1int
        } else {
            0int
        }
    }
}

/// The deep view of a gram vector is its plain view.
pub proof fn lemma_deep_view_gram(v: Vec<u32>)
    ensures
        v.deep_view() == v@,
{
    assert(v.deep_view() =~= v@);
}

/// The deep view of a pair vector, entry by entry.
pub proof fn lemma_deep_view_pairs(ps: Vec<(Vec<u32>, usize)>)
    ensures
        ps.deep_view().len() == ps@.len(),
        forall|i: int|
            0 <= i < ps@.len() ==> #[trigger] ps.deep_view()[i] == ((ps@[i].0@, ps@[i].1)),
{
    assert forall|i: int| 0 <= i < ps@.len() implies #[trigger] ps.deep_view()[i] == ((
    ps@[i].0@,
    ps@[i].1,
    )) by {
        assert(ps@[i].0.deep_view() =~= ps@[i].0@);
    }
}

/// The first entry of an insertion carries either the new gram or the old head.
proof fn lemma_pair_insert_first(ps: Seq<GramCount>, g: Seq<u32>)
    ensures
        pair_insert(ps, g).len() >= 1,
        pair_insert(ps, g).len() >= ps.len(),
        pair_insert(ps, g)[0].0 == g || (ps.len() > 0 && pair_insert(ps, g)[0].0 == ps[0].0),
    decreases ps.len(),
{
    if ps.len() > 0 && !lex_lt(g, ps[0].0) && g != ps[0].0 {
        lemma_pair_insert_first(ps.drop_first(), g);
    }
}

/// Insertion keeps the list sorted.
pub proof fn lemma_pair_insert_sorted(ps: Seq<GramCount>, g: Seq<u32>)
    requires
        pairs_sorted(ps),
    ensures
        pairs_sorted(pair_insert(ps, g)),
    decreases ps.len(),
{
    let r = pair_insert(ps, g);
    if ps.len() == 0 {
    } else if lex_lt(g, ps[0].0) {
        assert forall|i: int| 0 <= i < r.len() - 1 implies lex_lt(#[trigger] r[i].0, r[i + 1].0) by {
            if i > 0 {
                assert(r[i] == ps[i - 1] && r[i + 1] == ps[i]);
            }
        }
    } else if g == ps[0].0 {
        assert forall|i: int| 0 <= i < r.len() - 1 implies lex_lt(#[trigger] r[i].0, r[i + 1].0) by {
            assert(r[i].0 == ps[i].0 && r[i + 1].0 == ps[i + 1].0);
        }
    } else {
        let tail = ps.drop_first();
        assert(pairs_sorted(tail)) by {
            assert forall|i: int| 0 <= i < tail.len() - 1 implies lex_lt(
                #[trigger] tail[i].0,
                tail[i + 1].0,
            ) by {
                assert(ps[i + 1].0 == tail[i].0 && ps[i + 2].0 == tail[i + 1].0);
            }
        }
        lemma_pair_insert_sorted(tail, g);
        lemma_pair_insert_first(tail, g);
        lemma_lex_trichotomy(g, ps[0].0);
        let tr = pair_insert(tail, g);
        assert forall|i: int| 0 <= i < r.len() - 1 implies lex_lt(#[trigger] r[i].0, r[i + 1].0) by {
            if i == 0 {
                assert(r[1] == tr[0]);
                if tr[0].0 == g {
                } else {
                    assert(tr[0].0 == tail[0].0 && tail[0] == ps[1]);
                }
            } else {
                assert(r[i] == tr[i - 1] && r[i + 1] == tr[i]);
            }
        }
    }
}

/// With `g` below every key, `g` has no entry.
proof fn lemma_pairs_count_absent(ps: Seq<GramCount>, g: Seq<u32>)
    requires
        pairs_sorted(ps),
        ps.len() > 0 ==> lex_lt(g, ps[0].0),
    ensures
        pairs_count(ps, g) == 0,
    decreases ps.len(),
{
    if ps.len() > 0 {
        lemma_lex_trichotomy(g, ps[0].0);
        let tail = ps.drop_first();
        assert(pairs_sorted(tail)) by {
            assert forall|i: int| 0 <= i < tail.len() - 1 implies lex_lt(
                #[trigger] tail[i].0,
                tail[i + 1].0,
            ) by {
                assert(ps[i + 1].0 == tail[i].0 && ps[i + 2].0 == tail[i + 1].0);
            }
        }
        if tail.len() > 0 {
            assert(lex_lt(ps[0].0, ps[1].0));
            assert(ps[1] == tail[0]);
            lemma_lex_trans(g, ps[0].0, tail[0].0);
        }
        lemma_pairs_count_absent(tail, g);
    }
}

/// Insertion bumps exactly the count of the inserted gram.
pub proof fn lemma_pair_insert_count(ps: Seq<GramCount>, g: Seq<u32>, h: Seq<u32>)
    requires
        pairs_sorted(ps),
        pairs_total(ps) < usize::MAX,
    ensures
        pairs_count(pair_insert(ps, g), h) == pairs_count(ps, h) + if h == g {
            1int
        } else {
            0int
        },
    decreases ps.len(),
{
    let r = pair_insert(ps, g);
    if ps.len() == 0 {
        assert(r == seq![(g, 1usize)]);
        assert(r[0] == (g, 1usize));
        if h != g {
            assert(r.drop_first() =~= Seq::<GramCount>::empty());
            assert(pairs_count(r, h) == pairs_count(r.drop_first(), h));
        }
    } else if lex_lt(g, ps[0].0) {
        assert(r == seq![(g, 1usize)] + ps);
        assert(r[0] == (g, 1usize));
        assert(r.drop_first() =~= ps);
        if h == g {
            lemma_pairs_count_absent(ps, g);
            assert(pairs_count(r, h) == 1);
        } else {
            assert(pairs_count(r, h) == pairs_count(r.drop_first(), h));
        }
    } else if g == ps[0].0 {
        lemma_pairs_count_le_total(ps, 0);
        assert(ps[0].1 < usize::MAX);
        assert(r == seq![(ps[0].0, ((ps[0].1 + 1) as usize))] + ps.drop_first());
        assert(r[0] == (ps[0].0, ((ps[0].1 + 1) as usize)));
        assert(r.drop_first() =~= ps.drop_first());
        if h == g {
            assert(pairs_count(r, h) == ps[0].1 + 1);
            assert(pairs_count(ps, h) == ps[0].1);
        } else {
            assert(pairs_count(r, h) == pairs_count(r.drop_first(), h));
            assert(pairs_count(ps, h) == pairs_count(ps.drop_first(), h));
        }
    } else {
        lemma_lex_trichotomy(g, ps[0].0);
        let tail = ps.drop_first();
        assert(pairs_sorted(tail)) by {
            assert forall|i: int| 0 <= i < tail.len() - 1 implies lex_lt(
                #[trigger] tail[i].0,
                tail[i + 1].0,
            ) by {
                assert(ps[i + 1].0 == tail[i].0 && ps[i + 2].0 == tail[i + 1].0);
            }
        }
        assert(pairs_total(tail) < usize::MAX) by {
            lemma_pairs_total_nonneg(tail);
        }
        lemma_pair_insert_count(tail, g, h);
        assert(r == seq![ps[0]] + pair_insert(tail, g));
        assert(r[0] == ps[0]);
        assert(r.drop_first() =~= pair_insert(tail, g));
        if h == ps[0].0 {
            assert(pairs_count(r, h) == ps[0].1);
            assert(pairs_count(ps, h) == ps[0].1);
        } else {
            assert(pairs_count(r, h) == pairs_count(pair_insert(tail, g), h));
            assert(pairs_count(ps, h) == pairs_count(tail, h));
        }
    }
}

/// Insertion adds one to the total.
pub proof fn lemma_pair_insert_total(ps: Seq<GramCount>, g: Seq<u32>)
    requires
        pairs_total(ps) < usize::MAX,
    ensures
        pairs_total(pair_insert(ps, g)) == pairs_total(ps) + 1,
    decreases ps.len(),
{
    let r = pair_insert(ps, g);
    if ps.len() == 0 {
        assert(r[0] == (g, 1usize));
        assert(r.drop_first() =~= Seq::<GramCount>::empty());
        assert(pairs_total(r) == 1 + pairs_total(r.drop_first()));
    } else if lex_lt(g, ps[0].0) {
        assert(r[0] == (g, 1usize));
        assert(r.drop_first() =~= ps);
        assert(pairs_total(r) == 1 + pairs_total(r.drop_first()));
    } else if g == ps[0].0 {
        lemma_pairs_count_le_total(ps, 0);
        assert(ps[0].1 < usize::MAX);
        assert(r[0] == (ps[0].0, ((ps[0].1 + 1) as usize)));
        assert(r.drop_first() =~= ps.drop_first());
        assert(pairs_total(r) == r[0].1 + pairs_total(r.drop_first()));
        assert(pairs_total(ps) == ps[0].1 + pairs_total(ps.drop_first()));
        assert(pairs_total(ps.drop_first()) >= 0) by {
            lemma_pairs_total_nonneg(ps.drop_first());
        }
    } else {
        assert(pairs_total(ps.drop_first()) < usize::MAX) by {
            lemma_pairs_total_nonneg(ps.drop_first());
        }
        lemma_pair_insert_total(ps.drop_first(), g);
        assert(r[0] == ps[0]);
        assert(r.drop_first() =~= pair_insert(ps.drop_first(), g));
        assert(pairs_total(r) == r[0].1 + pairs_total(r.drop_first()));
        assert(pairs_total(ps) == ps[0].1 + pairs_total(ps.drop_first()));
    }
}

/// Counts never drive the total negative.
pub proof fn lemma_pairs_total_nonneg(ps: Seq<GramCount>)
    ensures
        pairs_total(ps) >= 0,
    decreases ps.len(),
{
    if ps.len() > 0 {
        lemma_pairs_total_nonneg(ps.drop_first());
    }
}

/// Every single count is bounded by the total.
pub proof fn lemma_pairs_count_le_total(ps: Seq<GramCount>, i: int)
    requires
        0 <= i < ps.len(),
    ensures
        ps[i].1 <= pairs_total(ps),
    decreases ps.len(),
{
    if i == 0 {
        lemma_pairs_total_nonneg(ps.drop_first());
    } else {
        lemma_pairs_count_le_total(ps.drop_first(), i - 1);
        assert(ps.drop_first()[i - 1] == ps[i]);
    }
}

/// Insertion keeps every count positive.
pub proof fn lemma_pair_insert_pos(ps: Seq<GramCount>, g: Seq<u32>)
    requires
        pairs_pos(ps),
        pairs_total(ps) < usize::MAX,
    ensures
        pairs_pos(pair_insert(ps, g)),
    decreases ps.len(),
{
    let r = pair_insert(ps, g);
    if ps.len() == 0 {
    } else if lex_lt(g, ps[0].0) {
        assert forall|i: int| 0 <= i < r.len() implies (#[trigger] r[i]).1 >= 1 by {
            if i > 0 {
                assert(r[i] == ps[i - 1]);
            }
        }
    } else if g == ps[0].0 {
        lemma_pairs_count_le_total(ps, 0);
        assert(ps[0].1 < usize::MAX);
        assert forall|i: int| 0 <= i < r.len() implies (#[trigger] r[i]).1 >= 1 by {
            if i > 0 {
                assert(r[i] == ps.drop_first()[i - 1]);
                assert(ps[i].1 >= 1);
            }
        }
    } else {
        assert(pairs_pos(ps.drop_first())) by {
            assert forall|i: int| 0 <= i < ps.drop_first().len() implies (#[trigger] ps.drop_first()[i]).1 >= 1 by {
                assert(ps[i + 1].1 >= 1);
            }
        }
        assert(pairs_total(ps.drop_first()) < usize::MAX) by {
            lemma_pairs_total_nonneg(ps.drop_first());
        }
        lemma_pair_insert_pos(ps.drop_first(), g);
        assert forall|i: int| 0 <= i < r.len() implies (#[trigger] r[i]).1 >= 1 by {
            if i > 0 {
                assert(r[i] == pair_insert(ps.drop_first(), g)[i - 1]);
            }
        }
    }
}

/// The pair list of an occurrence sequence is sorted, positive, and counts
/// occurrences exactly; its total is the number of occurrences.
pub proof fn lemma_spec_pairs_ok(ws: Seq<Seq<u32>>)
    requires
        ws.len() <= usize::MAX,
    ensures
        pairs_sorted(spec_pairs(ws)),
        pairs_pos(spec_pairs(ws)),
        pairs_total(spec_pairs(ws)) == ws.len(),
        forall|g: Seq<u32>| #[trigger] pairs_count(spec_pairs(ws), g) == occ_count(ws, g),
    decreases ws.len(),
{
    if ws.len() > 0 {
        lemma_spec_pairs_ok(ws.drop_last());
        let ps = spec_pairs(ws.drop_last());
        lemma_pair_insert_sorted(ps, ws.last());
        lemma_pair_insert_pos(ps, ws.last());
        lemma_pair_insert_total(ps, ws.last());
        assert forall|g: Seq<u32>| #[trigger] pairs_count(spec_pairs(ws), g) == occ_count(ws, g) by {
            lemma_pair_insert_count(ps, ws.last(), g);
        }
    }
}

/// Pair sortedness extends to any two positions.
pub proof fn lemma_pairs_sorted_pair(ps: Seq<GramCount>, i: int, j: int)
    requires
        pairs_sorted(ps),
        0 <= i < j < ps.len(),
    ensures
        lex_lt(ps[i].0, ps[j].0),
    decreases j - i,
{
    if i + 1 == j {
    } else {
        lemma_pairs_sorted_pair(ps, i, j - 1);
        lemma_lex_trans(ps[i].0, ps[j - 1].0, ps[j].0);
    }
}

/// The pair list of any occurrence sequence is sorted.
pub proof fn lemma_spec_pairs_sorted(ws: Seq<Seq<u32>>)
    ensures
        pairs_sorted(spec_pairs(ws)),
    decreases ws.len(),
{
    if ws.len() > 0 {
        lemma_spec_pairs_sorted(ws.drop_last());
        lemma_pair_insert_sorted(spec_pairs(ws.drop_last()), ws.last());
    }
}

/// Inserts one occurrence of `g` into a sorted, positive pair vector.
pub fn pair_insert_exec(ps: Vec<(Vec<u32>, usize)>, g: Vec<u32>) -> (r: Vec<(Vec<u32>, usize)>)
    requires
        pairs_total(ps.deep_view()) < usize::MAX,
        pairs_pos(ps.deep_view()),
    ensures
        r.deep_view() == pair_insert(ps.deep_view(), g@),
    decreases ps@.len(),
{
    let mut ps = ps;
    if ps.len() == 0 {
        ps.push((g, 1));
        proof {
            lemma_deep_view_pairs(ps);
            lemma_deep_view_gram(g);
            assert(ps.deep_view() =~= pair_insert(Seq::<GramCount>::empty(), g@));
        }
        return ps;
    }
    let ghost dv = ps.deep_view();
    let ghost oldv = ps@;
    proof {
        lemma_deep_view_pairs(ps);
    }
    let o = lex_cmp(&g, &ps[0].0);
    proof {
        assert(dv[0] == ((oldv[0].0@, oldv[0].1)));
    }
    if o < 0 {
        ps.insert(0, (g, 1));
        proof {
            lemma_deep_view_pairs(ps);
            lemma_deep_view_gram(g);
            assert(lex_lt(g@, dv[0].0));
            assert(ps.deep_view() =~= seq![(g@, 1usize)] + dv) by {
                assert forall|j: int| 0 <= j < ps@.len() implies #[trigger] ps.deep_view()[j] == (
                seq![(g@, 1usize)] + dv)[j] by {
                    if j > 0 {
                        assert(ps@[j] == oldv[j - 1]);
                    }
                }
            }
        }
        ps
    } else if o == 0 {
        proof {
            lemma_pairs_count_le_total(dv, 0);
            assert(dv[0].1 < usize::MAX);
        }
        let c = ps[0].1;
        let head = ps.remove(0);
        ps.insert(0, (head.0, c + 1));
        proof {
            lemma_deep_view_pairs(ps);
            assert(g@ == dv[0].0);
            assert(ps.deep_view() =~= seq![(dv[0].0, ((dv[0].1 + 1) as usize))]
                + dv.drop_first()) by {
                assert forall|j: int| 0 <= j < ps@.len() implies #[trigger] ps.deep_view()[j] == (
                seq![(dv[0].0, ((dv[0].1 + 1) as usize))] + dv.drop_first())[j] by {
                    if j > 0 {
                        assert(ps@[j] == oldv[j]);
                        assert(dv.drop_first()[j - 1] == dv[j]);
                    } else {
                        assert(ps@[0] == ((head.0, (c + 1) as usize)));
                        assert(head.0@ == dv[0].0);
                    }
                }
            }
        }
        ps
    } else {
        let head = ps.remove(0);
        proof {
            lemma_deep_view_pairs(ps);
            assert(ps.deep_view() =~= dv.drop_first()) by {
                assert forall|j: int| 0 <= j < ps@.len() implies #[trigger] ps.deep_view()[j]
                    == dv.drop_first()[j] by {
                    assert(ps@[j] == oldv[j + 1]);
                }
            }
            lemma_pairs_total_nonneg(dv.drop_first());
            assert(pairs_total(dv) == dv[0].1 + pairs_total(dv.drop_first()));
            assert(pairs_total(dv.drop_first()) < usize::MAX);
            assert(pairs_pos(dv.drop_first())) by {
                assert forall|i: int| 0 <= i < dv.drop_first().len() implies (#[trigger] dv.drop_first()[i]).1 >= 1 by {
                    assert(dv[i + 1].1 >= 1);
                }
            }
        }
        let mut rest = pair_insert_exec(ps, g);
        let ghost restv = rest@;
        let ghost restdv = rest.deep_view();
        rest.insert(0, head);
        proof {
            lemma_deep_view_pairs(rest);
            assert(lex_lt(dv[0].0, g@) && g@ != dv[0].0 && !lex_lt(g@, dv[0].0)) by {
                lemma_lex_trichotomy(g@, dv[0].0);
            }
            assert(pair_insert(dv, g@) == seq![dv[0]] + pair_insert(dv.drop_first(), g@));
            assert(rest.deep_view() =~= seq![dv[0]] + pair_insert(dv.drop_first(), g@)) by {
                assert forall|j: int| 0 <= j < rest@.len() implies #[trigger] rest.deep_view()[j]
                    == (seq![dv[0]] + pair_insert(dv.drop_first(), g@))[j] by {
                    if j == 0 {
                        assert(rest@[0] == head);
                        assert(head == oldv[0]);
                    } else {
                        assert(rest@[j] == restv[j - 1]);
                        assert(rest.deep_view()[j] == ((restv[j - 1].0@, restv[j - 1].1)));
                        assert(restdv[j - 1] == ((restv[j - 1].0@, restv[j - 1].1))) by {
                            assert(restv[j - 1].0.deep_view() =~= restv[j - 1].0@);
                        }
                    }
                }
            }
        }
        rest
    }
}

/// Returns the sorted (n-gram, count) pairs of a key.
pub fn counts(cfg: &NgramConfig, key: &str) -> (ps: Vec<(Vec<u32>, usize)>)
    requires
        cfg.arity >= 1,
    ensures
        ps.deep_view() == spec_pairs(windows_of(*cfg, key@)),
        pairs_sorted(ps.deep_view()),
        pairs_pos(ps.deep_view()),
        pairs_total(ps.deep_view()) == windows_of(*cfg, key@).len(),
        windows_of(*cfg, key@).len() <= usize::MAX,
{
    let ws = grams(cfg, key);
    let ghost all = ws.deep_view();
    let mut ps: Vec<(Vec<u32>, usize)> = Vec::new();
    let mut i: usize = 0;
    proof {
        assert(ps.deep_view() =~= spec_pairs(all.subrange(0, 0)));
        lemma_spec_pairs_ok(all.subrange(0, 0));
    }
    while i < ws.len()
        invariant
            i <= ws@.len(),
            all == ws.deep_view(),
            all.len() == ws@.len(),
            ps.deep_view() == spec_pairs(all.subrange(0, i as int)),
            pairs_sorted(ps.deep_view()),
            pairs_pos(ps.deep_view()),
            pairs_total(ps.deep_view()) == i,
        decreases ws@.len() - i,
    {
        let ghost pre = all.subrange(0, i as int);
        let ghost post = all.subrange(0, i + 1);
        // materialize the window as an owned gram
        let w = &ws[i];
        let mut g: Vec<u32> = Vec::new();
        let mut j: usize = 0;
        while j < w.len()
            invariant
                j <= w@.len(),
                g@ =~= w@.subrange(0, j as int),
            decreases w@.len() - j,
        {
            g.push(w[j]);
            proof {
                assert(g@ =~= w@.subrange(0, j + 1));
            }
            j = j + 1;
        }
        proof {
            assert(g@ =~= w@);
            assert(g@ == all[i as int]);
            assert(post.drop_last() =~= pre);
            assert(post.last() == all[i as int]);
        }
        ps = pair_insert_exec(ps, g);
        proof {
            lemma_spec_pairs_ok(post);
            assert(pairs_total(spec_pairs(pre)) == i);
            lemma_pair_insert_total(spec_pairs(pre), g@);
        }
        i = i + 1;
    }
    proof {
        assert(all.subrange(0, all.len() as int) =~= all);
    }
    ps
}

} // verus!
