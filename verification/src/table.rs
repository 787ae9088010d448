//! The sorted gram table: the distinct n-grams of the corpus in strictly
//! increasing order, with binary-search lookup; a gram's id is its rank.

use vstd::prelude::*;

verus! {

use crate::grams::{lemma_lex_trans, lemma_lex_trichotomy, lex_cmp, lex_lt};

/// Entries are strictly increasing, hence distinct.
pub open spec fn table_sorted(t: Seq<Seq<u32>>) -> bool {
    forall|i: int| 0 <= i < t.len() - 1 ==> lex_lt(#[trigger] t[i], t[i + 1])
}

/// Some entry equals `g`.
pub open spec fn table_contains(t: Seq<Seq<u32>>, g: Seq<u32>) -> bool {
    exists|i: int| 0 <= i < t.len() && #[trigger] t[i] == g
}

/// Inserts `g` into a sorted table, keeping it sorted and distinct.
pub open spec fn table_insert(t: Seq<Seq<u32>>, g: Seq<u32>) -> Seq<Seq<u32>>
    decreases t.len(),
{
    if t.len() == 0 {
        seq![g]
    } else if lex_lt(g, t[0]) {
        seq![g] + t
    } else if g == t[0] {
        t
    } else {
        seq![t[0]] + table_insert(t.drop_first(), g)
    }
}

/// Sortedness extends to any two positions.
pub proof fn lemma_table_sorted_pair(t: Seq<Seq<u32>>, i: int, j: int)
    requires
        table_sorted(t),
        0 <= i < j < t.len(),
    ensures
        lex_lt(t[i], t[j]),
    decreases j - i,
{
    if i + 1 == j {
    } else {
        lemma_table_sorted_pair(t, i, j - 1);
        lemma_lex_trans(t[i], t[j - 1], t[j]);
    }
}

/// The head of an insertion is the new gram or the old head.
proof fn lemma_table_insert_first(t: Seq<Seq<u32>>, g: Seq<u32>)
    ensures
        table_insert(t, g).len() >= 1,
        t.len() <= table_insert(t, g).len() <= t.len() + 1,
        table_insert(t, g)[0] == g || (t.len() > 0 && table_insert(t, g)[0] == t[0]),
    decreases t.len(),
{
    if t.len() > 0 && !lex_lt(g, t[0]) && g != t[0] {
        lemma_table_insert_first(t.drop_first(), g);
    }
}

/// Insertion grows the table by at most one entry.
pub proof fn lemma_table_insert_len(t: Seq<Seq<u32>>, g: Seq<u32>)
    ensures
        t.len() <= table_insert(t, g).len() <= t.len() + 1,
{
    lemma_table_insert_first(t, g);
}

/// Insertion keeps the table sorted.
pub proof fn lemma_table_insert_sorted(t: Seq<Seq<u32>>, g: Seq<u32>)
    requires
        table_sorted(t),
    ensures
        table_sorted(table_insert(t, g)),
    decreases t.len(),
{
    let r = table_insert(t, g);
    if t.len() == 0 {
    } else if lex_lt(g, t[0]) {
        assert forall|i: int| 0 <= i < r.len() - 1 implies lex_lt(#[trigger] r[i], r[i + 1]) by {
            if i > 0 {
                assert(r[i] == t[i - 1] && r[i + 1] == t[i]);
            }
        }
    } else if g == t[0] {
    } else {
        let tail = t.drop_first();
        assert(table_sorted(tail)) by {
            assert forall|i: int| 0 <= i < tail.len() - 1 implies lex_lt(
                #[trigger] tail[i],
                tail[i + 1],
            ) by {
                assert(t[i + 1] == tail[i] && t[i + 2] == tail[i + 1]);
            }
        }
        lemma_table_insert_sorted(tail, g);
        lemma_table_insert_first(tail, g);
        lemma_lex_trichotomy(g, t[0]);
        let tr = table_insert(tail, g);
        assert forall|i: int| 0 <= i < r.len() - 1 implies lex_lt(#[trigger] r[i], r[i + 1]) by {
            if i == 0 {
                assert(r[1] == tr[0]);
                if tr[0] == g {
                } else {
                    assert(tr[0] == tail[0] && tail[0] == t[1]);
                }
            } else {
                assert(r[i] == tr[i - 1] && r[i + 1] == tr[i]);
            }
        }
    }
}

/// Insertion adds exactly the inserted gram to the membership.
pub proof fn lemma_table_insert_contains(t: Seq<Seq<u32>>, g: Seq<u32>, h: Seq<u32>)
    ensures
        table_contains(table_insert(t, g), h) == (table_contains(t, h) || h == g),
    decreases t.len(),
{
    let r = table_insert(t, g);
    if t.len() == 0 {
        assert(r[0] == g);
        if table_contains(r, h) {
            let i = choose|i: int| 0 <= i < r.len() && #[trigger] r[i] == h;
            assert(i == 0);
        }
        if h == g {
            assert(r[0] == h);
        }
    } else if lex_lt(g, t[0]) {
        if table_contains(r, h) {
            let i = choose|i: int| 0 <= i < r.len() && #[trigger] r[i] == h;
            if i > 0 {
                assert(t[i - 1] == h);
            }
        }
        if table_contains(t, h) {
            let i = choose|i: int| 0 <= i < t.len() && #[trigger] t[i] == h;
            assert(r[i + 1] == h);
        }
        if h == g {
            assert(r[0] == h);
        }
    } else if g == t[0] {
        if h == g {
            assert(t[0] == h);
        }
    } else {
        lemma_table_insert_contains(t.drop_first(), g, h);
        let tr = table_insert(t.drop_first(), g);
        assert(r.drop_first() =~= tr);
        if table_contains(r, h) {
            let i = choose|i: int| 0 <= i < r.len() && #[trigger] r[i] == h;
            if i == 0 {
                assert(t[0] == h);
            } else {
                assert(tr[i - 1] == h);
                assert(table_contains(tr, h));
            }
        }
        if table_contains(t, h) {
            let i = choose|i: int| 0 <= i < t.len() && #[trigger] t[i] == h;
            if i == 0 {
                assert(r[0] == h);
            } else {
                assert(t.drop_first()[i - 1] == h);
                assert(table_contains(t.drop_first(), h));
                let k = choose|k: int| 0 <= k < tr.len() && #[trigger] tr[k] == h;
                assert(r[k + 1] == h);
            }
        }
        if h == g {
            let k = choose|k: int| 0 <= k < tr.len() && #[trigger] tr[k] == h;
            assert(r[k + 1] == h);
        }
    }
}

/// Two sorted tables with the same membership are equal.
pub proof fn lemma_table_unique(a: Seq<Seq<u32>>, b: Seq<Seq<u32>>)
    requires
        table_sorted(a),
        table_sorted(b),
        forall|g: Seq<u32>| #[trigger] table_contains(a, g) == table_contains(b, g),
    ensures
        a == b,
    decreases a.len() + b.len(),
{
    if a.len() == 0 && b.len() == 0 {
        assert(a =~= b);
    } else if a.len() == 0 {
        assert(table_contains(b, b[0]));
        assert(table_contains(a, b[0]));
        let i = choose|i: int| 0 <= i < a.len() && #[trigger] a[i] == b[0];
        assert(false);
    } else if b.len() == 0 {
        assert(table_contains(a, a[0]));
        assert(table_contains(b, a[0]));
        let i = choose|i: int| 0 <= i < b.len() && #[trigger] b[i] == a[0];
        assert(false);
    } else {
        // the heads are the minima, so they agree
        assert(table_contains(a, a[0]));
        assert(table_contains(b, a[0]));
        let i = choose|i: int| 0 <= i < b.len() && #[trigger] b[i] == a[0];
        assert(table_contains(b, b[0]));
        assert(table_contains(a, b[0]));
        let j = choose|j: int| 0 <= j < a.len() && #[trigger] a[j] == b[0];
        lemma_lex_trichotomy(a[0], b[0]);
        if lex_lt(a[0], b[0]) {
            if i > 0 {
                lemma_table_sorted_pair(b, 0, i);
                lemma_lex_trans(b[0], b[i], b[0]);
                assert(false);
            }
            assert(false);
        }
        if lex_lt(b[0], a[0]) {
            if j > 0 {
                lemma_table_sorted_pair(a, 0, j);
                lemma_lex_trans(a[0], a[j], a[0]);
                assert(false);
            }
            assert(false);
        }
        assert(a[0] == b[0]);
        let ta = a.drop_first();
        let tb = b.drop_first();
        assert(table_sorted(ta)) by {
            assert forall|k: int| 0 <= k < ta.len() - 1 implies lex_lt(
                #[trigger] ta[k],
                ta[k + 1],
            ) by {
                assert(a[k + 1] == ta[k] && a[k + 2] == ta[k + 1]);
            }
        }
        assert(table_sorted(tb)) by {
            assert forall|k: int| 0 <= k < tb.len() - 1 implies lex_lt(
                #[trigger] tb[k],
                tb[k + 1],
            ) by {
                assert(b[k + 1] == tb[k] && b[k + 2] == tb[k + 1]);
            }
        }
        assert forall|g: Seq<u32>| #[trigger] table_contains(ta, g) == table_contains(tb, g) by {
            if table_contains(ta, g) {
                let k = choose|k: int| 0 <= k < ta.len() && #[trigger] ta[k] == g;
                assert(a[k + 1] == g);
                assert(table_contains(a, g));
                assert(table_contains(b, g));
                let m = choose|m: int| 0 <= m < b.len() && #[trigger] b[m] == g;
                if m == 0 {
                    lemma_table_sorted_pair(a, 0, k + 1);
                    assert(false);
                }
                assert(tb[m - 1] == g);
            }
            if table_contains(tb, g) {
                let k = choose|k: int| 0 <= k < tb.len() && #[trigger] tb[k] == g;
                assert(b[k + 1] == g);
                assert(table_contains(b, g));
                assert(table_contains(a, g));
                let m = choose|m: int| 0 <= m < a.len() && #[trigger] a[m] == g;
                if m == 0 {
                    lemma_table_sorted_pair(b, 0, k + 1);
                    assert(false);
                }
                assert(ta[m - 1] == g);
            }
        }
        lemma_table_unique(ta, tb);
        assert(a =~= b) by {
            assert forall|k: int| 0 <= k < a.len() implies a[k] == b[k] by {
                if k > 0 {
                    assert(ta[k - 1] == tb[k - 1]);
                }
            }
        }
    }
}

/// In a sorted table, ranks order exactly as the grams do.
pub proof fn lemma_table_index_order(t: Seq<Seq<u32>>, i: int, j: int)
    requires
        table_sorted(t),
        0 <= i < t.len(),
        0 <= j < t.len(),
        lex_lt(t[i], t[j]),
    ensures
        i < j,
{
    if i == j {
        lemma_lex_trichotomy(t[i], t[j]);
    }
    if j < i {
        lemma_table_sorted_pair(t, j, i);
        lemma_lex_trichotomy(t[i], t[j]);
    }
}

/// Inserts a gram into the sorted table vector.
pub fn table_insert_exec(t: Vec<Vec<u32>>, g: Vec<u32>) -> (r: Vec<Vec<u32>>)
    ensures
        r.deep_view() == table_insert(t.deep_view(), g@),
    decreases t@.len(),
{
    let mut t = t;
    if t.len() == 0 {
        t.push(g);
        proof {
            lemma_deep_view_grams(t);
            assert(t.deep_view() =~= table_insert(Seq::<Seq<u32>>::empty(), g@));
        }
        return t;
    }
    let ghost dv = t.deep_view();
    let ghost oldv = t@;
    proof {
        lemma_deep_view_grams(t);
    }
    let o = lex_cmp(&g, &t[0]);
    if o < 0 {
        t.insert(0, g);
        proof {
            lemma_deep_view_grams(t);
            assert(t.deep_view() =~= seq![g@] + dv) by {
                assert forall|j: int| 0 <= j < t@.len() implies #[trigger] t.deep_view()[j] == (
                seq![g@] + dv)[j] by {
                    if j > 0 {
                        assert(t@[j] == oldv[j - 1]);
                    }
                }
            }
        }
        t
    } else if o == 0 {
        proof {
            assert(t.deep_view() =~= dv);
        }
        t
    } else {
        let head = t.remove(0);
        proof {
            lemma_deep_view_grams(t);
            assert(t.deep_view() =~= dv.drop_first()) by {
                assert forall|j: int| 0 <= j < t@.len() implies #[trigger] t.deep_view()[j]
                    == dv.drop_first()[j] by {
                    assert(t@[j] == oldv[j + 1]);
                }
            }
        }
        let mut rest = table_insert_exec(t, g);
        let ghost restv = rest@;
        let ghost restdv = rest.deep_view();
        rest.insert(0, head);
        proof {
            lemma_deep_view_grams(rest);
            lemma_lex_trichotomy(g@, dv[0]);
            assert(table_insert(dv, g@) == seq![dv[0]] + table_insert(dv.drop_first(), g@));
            assert(rest.deep_view() =~= seq![dv[0]] + table_insert(dv.drop_first(), g@)) by {
                assert forall|j: int| 0 <= j < rest@.len() implies #[trigger] rest.deep_view()[j]
                    == (seq![dv[0]] + table_insert(dv.drop_first(), g@))[j] by {
                    if j == 0 {
                        assert(rest@[0] == head);
                        assert(head == oldv[0]);
                    } else {
                        assert(rest@[j] == restv[j - 1]);
                        assert(restdv[j - 1] == restv[j - 1].deep_view());
                        assert(restv[j - 1].deep_view() =~= restv[j - 1]@);
                    }
                }
            }
        }
        rest
    }
}

/// The deep view of a gram table vector, entry by entry.
pub proof fn lemma_deep_view_grams(t: Vec<Vec<u32>>)
    ensures
        t.deep_view().len() == t@.len(),
        forall|i: int| 0 <= i < t@.len() ==> #[trigger] t.deep_view()[i] == t@[i]@,
{
    assert forall|i: int| 0 <= i < t@.len() implies #[trigger] t.deep_view()[i] == t@[i]@ by {
        assert(t@[i].deep_view() =~= t@[i]@);
    }
}

/// Binary search for a gram: its rank when present, nothing otherwise.
pub fn index_of(t: &Vec<Vec<u32>>, g: &Vec<u32>) -> (r: Option<usize>)
    requires
        table_sorted(t.deep_view()),
    ensures
        r matches Some(i) ==> i < t.deep_view().len() && t.deep_view()[i as int] == g@,
        r is None ==> !table_contains(t.deep_view(), g@),
{
    proof {
        lemma_deep_view_grams(*t);
    }
    let ghost dv = t.deep_view();
    let mut lo: usize = 0;
    let mut hi: usize = t.len();
    while lo < hi
        invariant
            table_sorted(dv),
            dv == t.deep_view(),
            dv.len() == t@.len(),
            forall|i: int| 0 <= i < t@.len() ==> #[trigger] dv[i] == t@[i]@,
            lo <= hi <= t@.len(),
            forall|i: int| 0 <= i < lo ==> lex_lt(#[trigger] dv[i], g@),
            forall|i: int| hi <= i < dv.len() ==> lex_lt(g@, #[trigger] dv[i]),
        decreases hi - lo,
    {
        let mid = lo + (hi - lo) / 2;
        let o = lex_cmp(&t[mid], g);
        if o == 0 {
            return Some(mid);
        } else if o < 0 {
            proof {
                assert forall|i: int| 0 <= i < mid + 1 implies lex_lt(#[trigger] dv[i], g@) by {
                    if i < mid {
                        lemma_table_sorted_pair(dv, i, mid as int);
                        lemma_lex_trans(dv[i], dv[mid as int], g@);
                    }
                }
            }
            lo = mid + 1;
        } else {
            proof {
                assert forall|i: int| mid <= i < dv.len() implies lex_lt(g@, #[trigger] dv[i]) by {
                    if i > mid {
                        lemma_table_sorted_pair(dv, mid as int, i);
                        lemma_lex_trans(g@, dv[mid as int], dv[i]);
                    }
                }
            }
            hi = mid;
        }
    }
    proof {
        if table_contains(dv, g@) {
            let i = choose|i: int| 0 <= i < dv.len() && #[trigger] dv[i] == g@;
            lemma_lex_trichotomy(dv[i], g@);
            assert(false);
        }
    }
    None
}

} // verus!
