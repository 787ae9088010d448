//! The corpus: owns the keys, the sorted gram table and the bipartite
//! graph, and maps between ids and values. The rasterizer lives here: it
//! ingests keys, dedupes n-grams, assigns ids and populates the CSR
//! structure.

use vstd::prelude::*;

verus! {

use crate::bitstream::{push_overflows, WeightsBuilder};
use crate::grams::{counts, GramCount, NgramConfig, pairs_pos, pairs_sorted, pairs_total, spec_pairs, windows_of};
use crate::table::{index_of, table_contains, table_insert, table_insert_exec, table_sorted,
    lemma_table_insert_contains, lemma_table_insert_sorted};

/// The sorted (n-gram, count) pairs of one key under a configuration.
pub open spec fn key_pairs(cfg: NgramConfig, k: Seq<char>) -> Seq<GramCount> {
    spec_pairs(windows_of(cfg, k))
}

/// Only the counts of a pair list, in order.
pub open spec fn counts_row(ps: Seq<GramCount>) -> Seq<usize> {
    Seq::new(ps.len(), |j: int| ps[j].1)
}

/// Every key's weight row, in key order.
pub open spec fn rows_of(cfg: NgramConfig, ks: Seq<Seq<char>>) -> Seq<Seq<usize>> {
    Seq::new(ks.len(), |k: int| counts_row(key_pairs(cfg, ks[k])))
}

/// Number of edges contributed by the keys before `kid`.
pub open spec fn edges_before(cfg: NgramConfig, ks: Seq<Seq<char>>, kid: int) -> int
    decreases kid,
{
    if kid <= 0 {
        0
    } else {
        edges_before(cfg, ks, kid - 1) + key_pairs(cfg, ks[kid - 1]).len()
    }
}

/// The weight bitstream's bookkeeping would overflow a machine word on
/// this input.
pub open spec fn build_overflows(cfg: NgramConfig, ks: Seq<Seq<char>>) -> bool {
    exists|p: int|
        0 <= p < ks.len() && push_overflows(
            rows_of(cfg, ks).subrange(0, p),
            #[trigger] rows_of(cfg, ks)[p],
        )
}

/// Everything phase one hands on: each key's sorted pairs, the weight
/// stream under construction, the cumulative edge offsets, and the table.
struct KeyData {
    all_pairs: Vec<Vec<(Vec<u32>, usize)>>,
    wb: WeightsBuilder,
    key_offsets: Vec<usize>,
    table: Vec<Vec<u32>>,
}

/// Phase one of the rasterizer: extract each key's sorted pairs one key
/// at a time, then fold them into the stream, offsets and table.
fn collect_key_data(keys: &Vec<String>, cfg: &NgramConfig) -> (r: Result<
    KeyData,
    crate::BuildError,
>)
    requires
        cfg.arity >= 1,
    ensures
        (r is Err) == build_overflows(*cfg, keys.deep_view()),
        r is Err ==> r == Result::<KeyData, crate::BuildError>::Err(
            crate::BuildError::BuilderOverflow,
        ),
        r matches Ok(d) ==> key_data_ok(*keys, *cfg, d),
{
    let ghost ks = keys.deep_view();
    let mut all_pairs: Vec<Vec<(Vec<u32>, usize)>> = Vec::new();
    let mut kid: usize = 0;
    while kid < keys.len()
        invariant
            cfg.arity >= 1,
            ks == keys.deep_view(),
            ks.len() == keys@.len(),
            kid <= ks.len(),
            all_pairs@.len() == kid,
            forall|k: int|
                0 <= k < kid ==> (#[trigger] all_pairs@[k]).deep_view() == key_pairs(
                    *cfg,
                    ks[k],
                ),
            forall|k: int|
                0 <= k < kid ==> pairs_total(#[trigger] key_pairs(*cfg, ks[k])) <= usize::MAX,
            forall|k: int|
                0 <= k < kid ==> (#[trigger] windows_of(*cfg, ks[k])).len() <= usize::MAX,
        decreases ks.len() - kid,
    {
        let ps = counts(cfg, keys[kid].as_str());
        proof {
            assert(keys@[kid as int]@ == ks[kid as int]);
        }
        all_pairs.push(ps);
        kid = kid + 1;
    }
    collect_from_pairs(keys, cfg, all_pairs)
}

/// What phase one guarantees of the data it hands on.
spec fn key_data_ok(keys: Vec<String>, cfg: NgramConfig, d: KeyData) -> bool {
    let ks = keys.deep_view();
    &&& d.all_pairs@.len() == ks.len()
    &&& (forall|kid: int|
        0 <= kid < ks.len() ==> (#[trigger] d.all_pairs@[kid]).deep_view() == key_pairs(
            cfg,
            ks[kid],
        ))
    &&& d.wb.wf()
    &&& d.wb.rows_view() == rows_of(cfg, ks)
    &&& d.key_offsets@.len() == ks.len() + 1
    &&& (forall|kid: int|
        0 <= kid <= ks.len() ==> #[trigger] d.key_offsets@[kid] == edges_before(cfg, ks, kid))
    &&& (forall|kid: int|
        0 <= kid < ks.len() ==> pairs_total(#[trigger] key_pairs(cfg, ks[kid])) <= usize::MAX)
    &&& (forall|kid: int|
        0 <= kid < ks.len() ==> (#[trigger] windows_of(cfg, ks[kid])).len() <= usize::MAX)
    &&& table_sorted(d.table.deep_view())
    &&& d.table.deep_view().len() <= d.key_offsets@[ks.len() as int]
    &&& (forall|g: Seq<u32>|
        #[trigger] table_contains(d.table.deep_view(), g) == (exists|kid: int, j: int|
            0 <= kid < ks.len() && 0 <= j < key_pairs(cfg, ks[kid]).len() && (#[trigger] key_pairs(
                cfg,
                ks[kid],
            )[j]).0 == g))
}

/// The sequential tail of phase one, from precomputed pairs: push every
/// key's counts into the weight stream, accumulate the cumulative edge
/// offsets, and insert every gram into the sorted table.
#[verifier::rlimit(100)]
#[verifier::spinoff_prover]
fn collect_from_pairs(
    keys: &Vec<String>,
    cfg: &NgramConfig,
    pairs_in: Vec<Vec<(Vec<u32>, usize)>>,
) -> (r: Result<KeyData, crate::BuildError>)
    requires
        cfg.arity >= 1,
        pairs_in@.len() == keys.deep_view().len(),
        forall|kid: int|
            0 <= kid < keys.deep_view().len() ==> (#[trigger] pairs_in@[kid]).deep_view()
                == key_pairs(*cfg, keys.deep_view()[kid]),
        forall|kid: int|
            0 <= kid < keys.deep_view().len() ==> pairs_total(
                #[trigger] key_pairs(*cfg, keys.deep_view()[kid]),
            ) <= usize::MAX,
        forall|kid: int|
            0 <= kid < keys.deep_view().len() ==> (#[trigger] windows_of(
                *cfg,
                keys.deep_view()[kid],
            )).len() <= usize::MAX,
    ensures
        (r is Err) == build_overflows(*cfg, keys.deep_view()),
        r is Err ==> r == Result::<KeyData, crate::BuildError>::Err(
            crate::BuildError::BuilderOverflow,
        ),
        r matches Ok(d) ==> key_data_ok(*keys, *cfg, d),
{
    let ghost ks = keys.deep_view();
    let mut wb = WeightsBuilder::new();
    let mut key_offsets: Vec<usize> = Vec::new();
    let mut table: Vec<Vec<u32>> = Vec::new();
    key_offsets.push(0);
    let mut kid: usize = 0;
    proof {
        assert(rows_of(*cfg, ks).subrange(0, 0) =~= Seq::<Seq<usize>>::empty());
    }
    while kid < keys.len()
        invariant
            cfg.arity >= 1,
            ks == keys.deep_view(),
            ks.len() == keys@.len(),
            pairs_in@.len() == ks.len(),
            forall|k: int|
                0 <= k < ks.len() ==> (#[trigger] pairs_in@[k]).deep_view() == key_pairs(
                    *cfg,
                    ks[k],
                ),
            kid <= ks.len(),
            wb.wf(),
            wb.rows_view() == rows_of(*cfg, ks).subrange(0, kid as int),
            key_offsets@.len() == kid + 1,
            forall|k: int|
                0 <= k <= kid ==> #[trigger] key_offsets@[k] == edges_before(*cfg, ks, k),
            key_offsets@[kid as int] <= crate::bitstream::total_weights(wb.rows_view()),
            crate::bitstream::total_weights(wb.rows_view()) <= usize::MAX,
            forall|p: int|
                0 <= p < kid ==> !push_overflows(
                    rows_of(*cfg, ks).subrange(0, p),
                    #[trigger] rows_of(*cfg, ks)[p],
                ),
            table_sorted(table.deep_view()),
            table.deep_view().len() <= key_offsets@[kid as int],
            forall|g: Seq<u32>|
                #[trigger] table_contains(table.deep_view(), g) == (exists|k: int, j: int|
                    0 <= k < kid && 0 <= j < key_pairs(*cfg, ks[k]).len() && (#[trigger] key_pairs(
                        *cfg,
                        ks[k],
                    )[j]).0 == g),
        decreases ks.len() - kid,
    {
        let ghost prevrows = wb.rows_view();
        let ps = &pairs_in[kid];
        proof {
            crate::grams::lemma_deep_view_pairs(pairs_in@[kid as int]);
            assert(ps.deep_view() == key_pairs(*cfg, ks[kid as int]));
        }
        // the counts of this key, in pair order
        let mut row: Vec<usize> = Vec::new();
        let mut j: usize = 0;
        while j < ps.len()
            invariant
                j <= ps@.len(),
                ps.deep_view().len() == ps@.len(),
                row@ =~= counts_row(ps.deep_view()).subrange(0, j as int),
                forall|t: int|
                    0 <= t < ps@.len() ==> (#[trigger] ps.deep_view()[t]).1 == ps@[t].1,
            decreases ps@.len() - j,
        {
            row.push(ps[j].1);
            proof {
                assert(row@ =~= counts_row(ps.deep_view()).subrange(0, j + 1));
            }
            j = j + 1;
        }
        proof {
            assert(row@ =~= counts_row(ps.deep_view()));
            assert(rows_of(*cfg, ks)[kid as int] == counts_row(key_pairs(*cfg, ks[kid as int])));
        }
        let pushed = wb.push(&row);
        match pushed {
            Err(_) => {
                proof {
                    assert(push_overflows(rows_of(*cfg, ks).subrange(0, kid as int), rows_of(
                        *cfg,
                        ks,
                    )[kid as int]));
                }
                return Err(crate::BuildError::BuilderOverflow);
            },
            Ok(_) => {},
        }
        proof {
            assert(wb.rows_view() =~= rows_of(*cfg, ks).subrange(0, kid + 1));
        }
        // cumulative edge offset
        let prev = key_offsets[kid];
        proof {
            crate::bitstream::lemma_enc_rows_snoc(prevrows, row@);
            crate::bitstream::lemma_total_weights_nonneg(prevrows);
            assert(crate::bitstream::total_weights(wb.rows_view())
                == crate::bitstream::total_weights(prevrows) + row@.len());
            assert(row@.len() == ps.deep_view().len());
            assert(ps.deep_view().len() == ps@.len());
        }
        let next_off = prev + ps.len();
        key_offsets.push(next_off);
        // table insertions
        let ghost tv0 = table.deep_view();
        let mut t: usize = 0;
        while t < ps.len()
            invariant
                t <= ps@.len(),
                ps == &pairs_in[kid as int],
                ps.deep_view() == key_pairs(*cfg, ks[kid as int]),
                ps.deep_view().len() == ps@.len(),
                kid < ks.len(),
                table_sorted(table.deep_view()),
                tv0.len() <= key_offsets@[kid as int],
                table.deep_view().len() <= tv0.len() + t,
                forall|g: Seq<u32>|
                    #[trigger] table_contains(table.deep_view(), g) == (table_contains(tv0, g)
                        || (exists|j2: int|
                        0 <= j2 < t && (#[trigger] ps.deep_view()[j2]).0 == g)),
            decreases ps@.len() - t,
        {
            // copy the gram out of the pair list
            let w = &ps[t].0;
            let mut gcopy: Vec<u32> = Vec::new();
            let mut q: usize = 0;
            while q < w.len()
                invariant
                    q <= w@.len(),
                    gcopy@ =~= w@.subrange(0, q as int),
                decreases w@.len() - q,
            {
                gcopy.push(w[q]);
                proof {
                    assert(gcopy@ =~= w@.subrange(0, q + 1));
                }
                q = q + 1;
            }
            proof {
                assert(gcopy@ =~= w@);
                assert(ps.deep_view()[t as int].0 == ps@[t as int].0@) by {
                    assert(ps@[t as int].0.deep_view() =~= ps@[t as int].0@);
                }
            }
            let ghost tv_before = table.deep_view();
            table = table_insert_exec(table, gcopy);
            proof {
                lemma_table_insert_sorted(tv_before, gcopy@);
                crate::table::lemma_table_insert_len(tv_before, gcopy@);
                assert forall|g: Seq<u32>| #[trigger] table_contains(table.deep_view(), g) == (
                table_contains(tv0, g) || (exists|j2: int|
                    0 <= j2 < t + 1 && (#[trigger] ps.deep_view()[j2]).0 == g)) by {
                    lemma_table_insert_contains(tv_before, gcopy@, g);
                }
            }
            t = t + 1;
        }
        proof {
            assert forall|g: Seq<u32>| #[trigger] table_contains(table.deep_view(), g) == (
            exists|k: int, j: int|
                0 <= k < kid + 1 && 0 <= j < key_pairs(*cfg, ks[k]).len() && (#[trigger] key_pairs(
                    *cfg,
                    ks[k],
                )[j]).0 == g) by {
                if table_contains(table.deep_view(), g) {
                    if table_contains(tv0, g) {
                        let (k, j) = choose|k: int, j: int|
                            0 <= k < kid && 0 <= j < key_pairs(*cfg, ks[k]).len() && (
                            #[trigger] key_pairs(*cfg, ks[k])[j]).0 == g;
                        assert(0 <= k < kid + 1 && 0 <= j < key_pairs(*cfg, ks[k]).len()
                            && key_pairs(*cfg, ks[k])[j].0 == g);
                    } else {
                        let j2 = choose|j2: int|
                            0 <= j2 < ps@.len() && (#[trigger] ps.deep_view()[j2]).0 == g;
                        assert(key_pairs(*cfg, ks[kid as int])[j2].0 == g);
                    }
                }
                if exists|k: int, j: int|
                    0 <= k < kid + 1 && 0 <= j < key_pairs(*cfg, ks[k]).len() && (
                    #[trigger] key_pairs(*cfg, ks[k])[j]).0 == g {
                    let (k, j) = choose|k: int, j: int|
                        0 <= k < kid + 1 && 0 <= j < key_pairs(*cfg, ks[k]).len() && (
                        #[trigger] key_pairs(*cfg, ks[k])[j]).0 == g;
                    if k < kid {
                        assert(table_contains(tv0, g));
                    } else {
                        assert(ps.deep_view()[j].0 == g);
                    }
                }
            }
        }
        kid = kid + 1;
    }
    proof {
        assert(rows_of(*cfg, ks).subrange(0, ks.len() as int) =~= rows_of(*cfg, ks));
    }
    Ok(KeyData { all_pairs: pairs_in, wb, key_offsets, table })
}

// ===================== occurrence counting =====================

/// How many of the first `e` entries equal `g`.
pub open spec fn count_upto(arr: Seq<usize>, g: int, e: int) -> int
    decreases e,
{
    if e <= 0 {
        0
    } else {
        count_upto(arr, g, e - 1) + if arr[e - 1] == g {
            1int
        } else {
            0int
        }
    }
}

/// Counts are bounded by the prefix length.
pub proof fn lemma_count_upto_le(arr: Seq<usize>, g: int, e: int)
    ensures
        0 <= count_upto(arr, g, e) <= if e >= 0 {
            e
        } else {
            0
        },
    decreases e,
{
    if e > 0 {
        lemma_count_upto_le(arr, g, e - 1);
    }
}

/// Counting only reads the prefix.
pub proof fn lemma_count_upto_agree(a: Seq<usize>, b: Seq<usize>, g: int, e: int)
    requires
        forall|i: int| 0 <= i < e ==> a[i] == b[i],
    ensures
        count_upto(a, g, e) == count_upto(b, g, e),
    decreases e,
{
    if e > 0 {
        lemma_count_upto_agree(a, b, g, e - 1);
    }
}

/// Counting grows with the prefix.
pub proof fn lemma_count_upto_mono(arr: Seq<usize>, g: int, e1: int, e2: int)
    requires
        e1 <= e2,
    ensures
        count_upto(arr, g, e1) <= count_upto(arr, g, e2),
    decreases e2 - e1,
{
    if e1 < e2 {
        lemma_count_upto_mono(arr, g, e1, e2 - 1);
        lemma_count_upto_le(arr, g, e2);
    }
}

/// Sum of the counts of all values below `nd`.
pub open spec fn count_sum(arr: Seq<usize>, nd: int, e: int) -> int
    decreases nd,
{
    if nd <= 0 {
        0
    } else {
        count_sum(arr, nd - 1, e) + count_upto(arr, nd - 1, e)
    }
}

/// One more entry raises exactly one bucket's count.
proof fn lemma_count_sum_step(arr: Seq<usize>, nd: int, e: int)
    requires
        e >= 1,
    ensures
        count_sum(arr, nd, e) == count_sum(arr, nd, e - 1) + if 0 <= arr[e - 1] < nd {
            1int
        } else {
            0int
        },
    decreases nd,
{
    if nd > 0 {
        lemma_count_sum_step(arr, nd - 1, e);
    }
}

/// An empty prefix has empty buckets.
proof fn lemma_count_sum_zero(arr: Seq<usize>, nd: int)
    ensures
        count_sum(arr, nd, 0) == 0,
    decreases nd,
{
    if nd > 0 {
        lemma_count_sum_zero(arr, nd - 1);
    }
}

/// With every value below `nd`, the bucket counts partition the prefix.
pub proof fn lemma_counts_partition(arr: Seq<usize>, nd: int, e: int)
    requires
        0 <= e <= arr.len(),
        forall|i: int| 0 <= i < arr.len() ==> (#[trigger] arr[i]) < nd,
    ensures
        count_sum(arr, nd, e) == e,
    decreases e,
{
    if e > 0 {
        lemma_counts_partition(arr, nd, e - 1);
        lemma_count_sum_step(arr, nd, e);
        assert(0 <= arr[e - 1] < nd);
    } else {
        lemma_count_sum_zero(arr, nd);
    }
}

/// Bucket sums grow with the bucket bound.
proof fn lemma_count_sum_mono(arr: Seq<usize>, nd1: int, nd2: int, e: int)
    requires
        nd1 <= nd2,
    ensures
        count_sum(arr, nd1, e) <= count_sum(arr, nd2, e),
    decreases nd2 - nd1,
{
    if nd1 < nd2 {
        lemma_count_sum_mono(arr, nd1, nd2 - 1, e);
        lemma_count_upto_le(arr, nd2 - 1, e);
    }
}

/// The keys before `kid` contribute no more edges than all keys.
proof fn lemma_edges_before_mono(cfg: NgramConfig, ks: Seq<Seq<char>>, a: int, b: int)
    requires
        a <= b,
    ensures
        edges_before(cfg, ks, a) <= edges_before(cfg, ks, b),
    decreases b - a,
{
    if a < b {
        lemma_edges_before_mono(cfg, ks, a, b - 1);
    }
}

/// The smallest power of two holding `n` values, as a bit width.
fn pow2_width(n: usize) -> (w: usize)
    ensures
        w <= 64,
        n <= vstd::arithmetic::power2::pow2(w as nat),
{
    let mut p: u128 = 1;
    let mut w: usize = 0;
    proof {
        vstd::arithmetic::power2::lemma2_to64();
        vstd::arithmetic::power2::lemma2_to64_rest();
    }
    while p < n as u128
        invariant
            p == vstd::arithmetic::power2::pow2(w as nat),
            p >= 1,
            w > 0 ==> vstd::arithmetic::power2::pow2((w - 1) as nat) < n,
            w <= 64,
        decreases 2 * (n as int) - p as int,
    {
        proof {
            if w >= 64 {
                assert(vstd::arithmetic::power2::pow2(64) == 0x10000000000000000) by {
                    vstd::arithmetic::power2::lemma2_to64_rest();
                }
                if w > 64 {
                    vstd::arithmetic::power2::lemma_pow2_strictly_increases(64, w as nat);
                }
                assert(false);
            }
            assert(vstd::arithmetic::power2::pow2((w + 1) as nat) == 2 * vstd::arithmetic::power2::pow2(w as nat)) by {
                vstd::arithmetic::power2::lemma_pow2_unfold((w + 1) as nat);
            }
            assert(p * 2 <= u128::MAX) by {
                vstd::arithmetic::power2::lemma_pow2_strictly_increases(w as nat, 65);
                assert(vstd::arithmetic::power2::pow2(65) == 2 * vstd::arithmetic::power2::pow2(
                    64,
                )) by {
                    vstd::arithmetic::power2::lemma_pow2_unfold(65);
                }
            }
        }
        p = p * 2;
        w = w + 1;
        proof {
            if w > 64 {
                assert(vstd::arithmetic::power2::pow2((w - 1) as nat)
                    >= vstd::arithmetic::power2::pow2(64)) by {
                    if w - 1 > 64 {
                        vstd::arithmetic::power2::lemma_pow2_strictly_increases(
                            64,
                            (w - 1) as nat,
                        );
                    }
                }
                assert(n as u128 <= u64::MAX as u128);
                assert(false);
            }
        }
    }
    w
}

// ===================== remapping =====================

/// Phase two of the rasterizer: rewrite each key's grams as gram ids by
/// binary search in the table, filling the key-to-gram packed array and
/// accumulating each gram's inbound degree.
#[verifier::rlimit(100)]
fn remap_edges(
    ap: &Vec<Vec<(Vec<u32>, usize)>>,
    table: &Vec<Vec<u32>>,
    key_offsets: &Vec<usize>,
    gwidth: usize,
    e_total: usize,
    cfg: &NgramConfig,
    Ghost(ks): Ghost<Seq<Seq<char>>>,
) -> (r: (crate::packed::PackedVec, Vec<usize>))
    requires
        ap@.len() == ks.len(),
        forall|kid: int|
            0 <= kid < ks.len() ==> (#[trigger] ap@[kid]).deep_view() == key_pairs(*cfg, ks[kid]),
        forall|kid: int| 0 <= kid < ks.len() ==> pairs_sorted(#[trigger] key_pairs(*cfg, ks[kid])),
        table_sorted(table.deep_view()),
        forall|kid: int, j: int|
            0 <= kid < ks.len() && 0 <= j < key_pairs(*cfg, ks[kid]).len() ==> table_contains(
                table.deep_view(),
                (#[trigger] key_pairs(*cfg, ks[kid])[j]).0,
            ),
        key_offsets@.len() == ks.len() + 1,
        forall|kid: int|
            0 <= kid <= ks.len() ==> #[trigger] key_offsets@[kid] == edges_before(*cfg, ks, kid),
        e_total == key_offsets@.last(),
        gwidth <= 64,
        table.deep_view().len() <= vstd::arithmetic::power2::pow2(gwidth as nat),
    ensures
        ({
            let (s2d, deg) = r;
            let elems = crate::packed::packed_elems(s2d);
            let tv = table.deep_view();
            &&& elems.len() == e_total
            &&& (forall|e: int| 0 <= e < e_total ==> (#[trigger] elems[e]) < tv.len())
            &&& (forall|kid: int, j: int|
                0 <= kid < ks.len() && 0 <= j < key_pairs(*cfg, ks[kid]).len() ==> tv[elems[
                    key_offsets@[kid] + j] as int] == (#[trigger] key_pairs(*cfg, ks[kid])[j]).0)
            &&& (forall|kid: int|
                0 <= kid < ks.len() ==> #[trigger] crate::graph::seg_strict_inc(
                    elems,
                    key_offsets@[kid] as int,
                    key_offsets@[kid + 1] as int,
                ))
            &&& deg@.len() == tv.len()
            &&& (forall|g: int|
                0 <= g < tv.len() ==> #[trigger] deg@[g] == count_upto(elems, g, e_total as int))
        }),
{
    let ghost tv = table.deep_view();
    let mut s2d = crate::packed::packed_new(gwidth, e_total);
    let mut deg: Vec<usize> = Vec::new();
    let mut d: usize = 0;
    while d < table.len()
        invariant
            d <= table@.len(),
            tv.len() == table@.len(),
            tv == table.deep_view(),
            deg@.len() == d,
            forall|g: int| 0 <= g < d ==> #[trigger] deg@[g] == 0,
        decreases table@.len() - d,
    {
        deg.push(0);
        d = d + 1;
    }
    let mut kid: usize = 0;
    let mut e: usize = 0;
    while kid < ap.len()
        invariant
            ap@.len() == ks.len(),
            forall|k: int|
                0 <= k < ks.len() ==> (#[trigger] ap@[k]).deep_view() == key_pairs(*cfg, ks[k]),
            forall|k: int| 0 <= k < ks.len() ==> pairs_sorted(#[trigger] key_pairs(*cfg, ks[k])),
            table_sorted(tv),
            tv == table.deep_view(),
            tv.len() == table@.len(),
            forall|k: int, j: int|
                0 <= k < ks.len() && 0 <= j < key_pairs(*cfg, ks[k]).len() ==> table_contains(
                    tv,
                    (#[trigger] key_pairs(*cfg, ks[k])[j]).0,
                ),
            key_offsets@.len() == ks.len() + 1,
            forall|k: int|
                0 <= k <= ks.len() ==> #[trigger] key_offsets@[k] == edges_before(*cfg, ks, k),
            e_total == key_offsets@.last(),
            gwidth <= 64,
            tv.len() <= vstd::arithmetic::power2::pow2(gwidth as nat),
            kid <= ks.len(),
            e == key_offsets@[kid as int],
            crate::packed::packed_elems(s2d).len() == e_total,
            crate::packed::packed_width(s2d) == gwidth,
            forall|t: int|
                0 <= t < e ==> (#[trigger] crate::packed::packed_elems(s2d)[t]) < tv.len(),
            forall|k: int, j: int|
                0 <= k < kid && 0 <= j < key_pairs(*cfg, ks[k]).len() ==> tv[crate::packed::packed_elems(
                    s2d,
                )[key_offsets@[k] + j] as int] == (#[trigger] key_pairs(*cfg, ks[k])[j]).0,
            forall|k: int|
                0 <= k < kid ==> #[trigger] crate::graph::seg_strict_inc(
                    crate::packed::packed_elems(s2d),
                    key_offsets@[k] as int,
                    key_offsets@[k + 1] as int,
                ),
            deg@.len() == tv.len(),
            forall|g: int|
                0 <= g < tv.len() ==> #[trigger] deg@[g] == count_upto(
                    crate::packed::packed_elems(s2d),
                    g,
                    e as int,
                ),
        decreases ks.len() - kid,
    {
        let ghost pairs = key_pairs(*cfg, ks[kid as int]);
        let ghost off_k = key_offsets@[kid as int] as int;
        let ghost old_prefix = crate::packed::packed_elems(s2d);
        let pairs_len = ap[kid].len();
        proof {
            crate::grams::lemma_deep_view_pairs(ap@[kid as int]);
            assert(key_offsets@[kid + 1] == edges_before(*cfg, ks, kid + 1));
            assert(edges_before(*cfg, ks, kid + 1) == edges_before(*cfg, ks, kid as int)
                + pairs.len());
            lemma_edges_before_mono(*cfg, ks, kid + 1, ks.len() as int);
            assert forall|k: int, j2: int|
                0 <= k < kid && 0 <= j2 < key_pairs(*cfg, ks[k]).len() implies tv[old_prefix[
                key_offsets@[k] + j2] as int] == (#[trigger] key_pairs(*cfg, ks[k])[j2]).0 by {}
            assert forall|k: int|
                0 <= k < kid implies #[trigger] crate::graph::seg_strict_inc(
                old_prefix,
                key_offsets@[k] as int,
                key_offsets@[k + 1] as int,
            ) by {}
        }
        let mut j: usize = 0;
        while j < pairs_len
            invariant
                ap@.len() == ks.len(),
                kid < ks.len(),
                ap@[kid as int].deep_view() == pairs,
                pairs == key_pairs(*cfg, ks[kid as int]),
                pairs_len == pairs.len(),
                pairs_sorted(pairs),
                forall|t: int|
                    0 <= t < pairs.len() ==> (#[trigger] ap@[kid as int]@[t]).0@ == pairs[t].0,
                forall|t: int| 0 <= t < pairs.len() ==> table_contains(tv, (#[trigger] pairs[t]).0),
                table_sorted(tv),
                tv == table.deep_view(),
                tv.len() == table@.len(),
                gwidth <= 64,
                tv.len() <= vstd::arithmetic::power2::pow2(gwidth as nat),
                j <= pairs.len(),
                off_k == key_offsets@[kid as int],
                e == off_k + j,
                key_offsets@[kid + 1] == off_k + pairs.len(),
                key_offsets@[kid + 1] <= e_total,
                crate::packed::packed_elems(s2d).len() == e_total,
                crate::packed::packed_width(s2d) == gwidth,
                forall|t: int|
                    0 <= t < e ==> (#[trigger] crate::packed::packed_elems(s2d)[t]) < tv.len(),
                forall|t: int|
                    0 <= t < off_k ==> #[trigger] crate::packed::packed_elems(s2d)[t]
                        == old_prefix[t],
                forall|j2: int|
                    0 <= j2 < j ==> tv[crate::packed::packed_elems(s2d)[off_k + j2] as int] == (
                    #[trigger] pairs[j2]).0,
                forall|t: int|
                    off_k <= t < e - 1 ==> (#[trigger] crate::packed::packed_elems(s2d)[t])
                        < crate::packed::packed_elems(s2d)[t + 1],
                deg@.len() == tv.len(),
                forall|g: int|
                    0 <= g < tv.len() ==> #[trigger] deg@[g] == count_upto(
                        crate::packed::packed_elems(s2d),
                        g,
                        e as int,
                    ),
            decreases pairs.len() - j,
        {
            let ghost elems0 = crate::packed::packed_elems(s2d);
            let gidx_opt = index_of(table, &ap[kid][j].0);
            let gidx = match gidx_opt {
                Some(i) => i,
                None => {
                    proof {
                        assert(ap@[kid as int]@[j as int].0@ == pairs[j as int].0);
                        assert(table_contains(tv, pairs[j as int].0));
                        assert(false);
                    }
                    0
                },
            };
            proof {
                assert(ap@[kid as int]@[j as int].0@ == pairs[j as int].0);
                assert(tv[gidx as int] == pairs[j as int].0);
            }
            crate::packed::packed_set(&mut s2d, e, gidx);
            let dg = deg[gidx];
            proof {
                lemma_count_upto_le(elems0, gidx as int, e as int);
            }
            deg.set(gidx, dg + 1);
            proof {
                let elems1 = crate::packed::packed_elems(s2d);
                assert(elems1 == elems0.update(e as int, gidx));
                assert forall|t: int| 0 <= t < e implies elems1[t] == elems0[t] by {}
                assert forall|g: int| 0 <= g < tv.len() implies #[trigger] deg@[g] == count_upto(
                    elems1,
                    g,
                    e + 1,
                ) by {
                    lemma_count_upto_agree(elems0, elems1, g, e as int);
                }
                if j > 0 {
                    let prev = elems1[e - 1];
                    assert(tv[prev as int] == pairs[j - 1].0);
                    assert(crate::grams::lex_lt(pairs[j - 1].0, pairs[j as int].0));
                    crate::table::lemma_table_index_order(tv, prev as int, gidx as int);
                }
            }
            j = j + 1;
            e = e + 1;
        }
        proof {
            let elems = crate::packed::packed_elems(s2d);
            assert forall|k: int|
                0 <= k < kid + 1 implies #[trigger] crate::graph::seg_strict_inc(
                elems,
                key_offsets@[k] as int,
                key_offsets@[k + 1] as int,
            ) by {
                if k < kid {
                    lemma_edges_before_mono(*cfg, ks, k + 1, kid as int);
                    assert(key_offsets@[k + 1] <= off_k);
                    assert forall|t: int|
                        key_offsets@[k] <= t < key_offsets@[k + 1] - 1 implies #[trigger] elems[t]
                        < elems[t + 1] by {
                        assert(elems[t] == old_prefix[t]);
                        assert(elems[t + 1] == old_prefix[t + 1]);
                        assert(crate::graph::seg_strict_inc(
                            old_prefix,
                            key_offsets@[k] as int,
                            key_offsets@[k + 1] as int,
                        ));
                    }
                } else {
                    assert forall|t: int|
                        off_k <= t < key_offsets@[kid + 1] - 1 implies #[trigger] elems[t]
                        < elems[t + 1] by {}
                }
            }
            assert forall|k: int, j2: int|
                0 <= k < kid + 1 && 0 <= j2 < key_pairs(*cfg, ks[k]).len() implies tv[elems[
                key_offsets@[k] + j2] as int] == (#[trigger] key_pairs(*cfg, ks[k])[j2]).0 by {
                if k < kid {
                    lemma_edges_before_mono(*cfg, ks, k + 1, kid as int);
                    assert(key_offsets@[k] + j2 < key_offsets@[k + 1]);
                    assert(elems[key_offsets@[k] + j2] == old_prefix[key_offsets@[k] + j2]);
                }
            }
        }
        kid = kid + 1;
    }
    proof {
        assert(e == e_total);
    }
    (s2d, deg)
}

// ===================== inbound offsets and the inverted index =====================

/// Phase three: the cumulative inbound degrees of the grams, as a plain
/// offset vector summing the counted degrees.
fn dst_offsets(deg: &Vec<usize>, e_total: usize, Ghost(elems): Ghost<Seq<usize>>) -> (off: Vec<
    usize,
>)
    requires
        elems.len() == e_total,
        forall|g: int| 0 <= g < deg@.len() ==> deg@[g] == #[trigger] count_upto(elems, g, e_total as int),
        forall|e: int| 0 <= e < elems.len() ==> (#[trigger] elems[e]) < deg@.len(),
    ensures
        off@.len() == deg@.len() + 1,
        off@[0] == 0,
        forall|g: int| 0 <= g < deg@.len() ==> #[trigger] off@[g + 1] == off@[g] + deg@[g],
        off@.last() == e_total,
        crate::ef::monotone(off@),
        forall|g: int| 0 <= g <= deg@.len() ==> #[trigger] off@[g] == count_sum(elems, g, e_total as int),
{
    let nd = deg.len();
    let mut off: Vec<usize> = Vec::new();
    off.push(0);
    proof {
        lemma_count_sum_zero(elems, 0);
        lemma_counts_partition(elems, nd as int, e_total as int);
    }
    let mut g: usize = 0;
    while g < nd
        invariant
            nd == deg@.len(),
            elems.len() == e_total,
            forall|g2: int|
                0 <= g2 < deg@.len() ==> #[trigger] deg@[g2] == count_upto(
                    elems,
                    g2,
                    e_total as int,
                ),
            forall|e: int| 0 <= e < elems.len() ==> (#[trigger] elems[e]) < deg@.len(),
            g <= nd,
            off@.len() == g + 1,
            off@[0] == 0,
            forall|g2: int| 0 <= g2 < g ==> #[trigger] off@[g2 + 1] == off@[g2] + deg@[g2],
            forall|g2: int|
                0 <= g2 <= g ==> #[trigger] off@[g2] == count_sum(elems, g2, e_total as int),
            count_sum(elems, nd as int, e_total as int) == e_total,
        decreases nd - g,
    {
        proof {
            lemma_count_sum_mono(elems, g + 1, nd as int, e_total as int);
            lemma_count_upto_le(elems, g as int, e_total as int);
            assert(count_sum(elems, g + 1, e_total as int) == count_sum(elems, g as int, e_total as int)
                + count_upto(elems, g as int, e_total as int));
        }
        let prev = off[g];
        let next = prev + deg[g];
        off.push(next);
        g = g + 1;
    }
    proof {
        assert(off@[nd as int] == count_sum(elems, nd as int, e_total as int));
        assert forall|i: int| 0 <= i < off@.len() - 1 implies #[trigger] off@[i] <= off@[i + 1] by {
            lemma_count_upto_le(elems, i, e_total as int);
        }
    }
    off
}

/// The static facts the inverted-index fill works under: a finished
/// key-to-gram array, its offsets, and the gram offsets derived from it.
pub open spec fn fill_ctx(
    elems: Seq<usize>,
    dst_off: Seq<usize>,
    key_off: Seq<usize>,
    ns: int,
    e_total: int,
) -> bool {
    let nd = dst_off.len() - 1;
    &&& 1 <= ns <= usize::MAX
    &&& elems.len() == e_total
    &&& (forall|e2: int| 0 <= e2 < elems.len() ==> (#[trigger] elems[e2]) < nd)
    &&& dst_off.len() >= 1
    &&& dst_off[0] == 0
    &&& (forall|g: int|
        0 <= g < nd ==> dst_off[g + 1] == dst_off[g] + #[trigger] count_upto(elems, g, e_total))
    &&& dst_off.last() == e_total
    &&& crate::ef::monotone(dst_off)
    &&& key_off.len() == ns + 1
    &&& key_off[0] == 0
    &&& crate::ef::monotone(key_off)
    &&& key_off.last() == e_total
    &&& (forall|k: int|
        0 <= k < ns ==> #[trigger] crate::graph::seg_strict_inc(
            elems,
            key_off[k] as int,
            key_off[k + 1] as int,
        ))
}

/// The fill's progress state after processing the edges before `e`, while
/// inside key `kid`.
pub open spec fn fill_inv(
    elems: Seq<usize>,
    delems: Seq<usize>,
    cursor: Seq<usize>,
    dst_off: Seq<usize>,
    key_off: Seq<usize>,
    ns: int,
    e: int,
    kid: int,
) -> bool {
    let nd = dst_off.len() - 1;
    &&& cursor.len() == nd
    &&& (forall|g: int| 0 <= g < nd ==> #[trigger] cursor[g] == count_upto(elems, g, e))
    &&& (forall|t: int| 0 <= t < delems.len() ==> (#[trigger] delems[t]) < ns)
    &&& (forall|g: int, i: int|
        0 <= g < nd && 0 <= i < cursor[g] ==> crate::graph::edge_in(
            key_off,
            elems,
            #[trigger] delems[dst_off[g] + i] as int,
            g,
        ))
    &&& (forall|g: int, i: int|
        0 <= g < nd && 0 <= i < cursor[g] - 1 ==> #[trigger] delems[dst_off[g] + i]
            < delems[dst_off[g] + i + 1])
    &&& (forall|g: int|
        0 <= g < nd && 0 < cursor[g] ==> ((#[trigger] delems[dst_off[g] + cursor[g] - 1]) < kid
            || (delems[dst_off[g] + cursor[g] - 1] == kid && (exists|e3: int|
            key_off[kid] <= e3 < e && #[trigger] elems[e3] == g))))
    &&& fill_complete_inv(elems, delems, cursor, dst_off, key_off, ns, e)
}

/// Every edge processed so far is represented in its gram's filled slots.
pub open spec fn fill_complete_inv(
    elems: Seq<usize>,
    delems: Seq<usize>,
    cursor: Seq<usize>,
    dst_off: Seq<usize>,
    key_off: Seq<usize>,
    ns: int,
    e: int,
) -> bool {
    forall|k: int, e2: int|
        0 <= k < ns && #[trigger] key_off[k] <= e2 < key_off[k + 1] && e2 < e ==> (exists|t: int|
            dst_off[#[trigger] elems[e2] as int] <= t < dst_off[elems[e2] as int]
                + cursor[elems[e2] as int] && 0 <= t < delems.len() && #[trigger] delems[t]
                == k)
}

/// The next slot of this edge's gram is free and inside its segment.
proof fn lemma_fill_bounds(
    elems: Seq<usize>,
    cursor: Seq<usize>,
    dst_off: Seq<usize>,
    key_off: Seq<usize>,
    ns: int,
    e_total: int,
    e: int,
    kid: int,
)
    requires
        fill_ctx(elems, dst_off, key_off, ns, e_total),
        0 <= kid < ns,
        key_off[kid] <= e < key_off[kid + 1],
        cursor.len() == dst_off.len() - 1,
        forall|g: int| 0 <= g < cursor.len() ==> #[trigger] cursor[g] == count_upto(elems, g, e),
    ensures
        0 <= e < e_total,
        0 <= elems[e] < dst_off.len() - 1,
        cursor[elems[e] as int] < dst_off[elems[e] + 1] - dst_off[elems[e] as int],
        dst_off[elems[e] as int] + cursor[elems[e] as int] < e_total,
    decreases 0int,
{
    let nd = dst_off.len() - 1;
    crate::ef::lemma_monotone_pair(key_off, kid + 1, ns);
    assert(e < e_total);
    let g = elems[e] as int;
    lemma_count_upto_mono(elems, g, e + 1, e_total);
    assert(count_upto(elems, g, e + 1) == cursor[g] + 1);
    crate::ef::lemma_monotone_pair(dst_off, g + 1, nd);
}

/// Distinct slots of the gram segments sit at distinct positions.
proof fn lemma_slot_separate(dst_off: Seq<usize>, g: int, i: int, g2: int, i2: int)
    requires
        crate::ef::monotone(dst_off),
        0 <= g < dst_off.len() - 1,
        0 <= g2 < dst_off.len() - 1,
        0 <= i,
        dst_off[g] + i < dst_off[g + 1],
        0 <= i2,
        dst_off[g2] + i2 < dst_off[g2 + 1],
        g != g2 || i != i2,
    ensures
        dst_off[g] + i != dst_off[g2] + i2,
{
    if g < g2 {
        crate::ef::lemma_monotone_pair(dst_off, g + 1, g2);
    }
    if g2 < g {
        crate::ef::lemma_monotone_pair(dst_off, g2 + 1, g);
    }
}

/// An already-filled slot lies inside its segment and away from the slot
/// being written.
proof fn lemma_fill_frame_at(
    elems: Seq<usize>,
    cursor0: Seq<usize>,
    dst_off: Seq<usize>,
    e_total: int,
    e: int,
    g: int,
    i: int,
)
    requires
        crate::ef::monotone(dst_off),
        cursor0.len() == dst_off.len() - 1,
        forall|g2: int|
            0 <= g2 < dst_off.len() - 1 ==> dst_off[g2 + 1] == dst_off[g2]
                + #[trigger] count_upto(elems, g2, e_total),
        forall|g2: int|
            0 <= g2 < cursor0.len() ==> #[trigger] cursor0[g2] == count_upto(elems, g2, e),
        0 <= e < e_total,
        elems.len() == e_total,
        dst_off.last() == e_total,
        elems[e] < dst_off.len() - 1,
        0 <= g < dst_off.len() - 1,
        0 <= i < cursor0[g],
    ensures
        dst_off[g] + i < dst_off[g + 1],
        dst_off[g] + i < e_total,
        dst_off[g] + i != dst_off[elems[e] as int] + cursor0[elems[e] as int],
{
    crate::ef::lemma_monotone_pair(dst_off, g + 1, dst_off.len() - 1);
    let gstar = elems[e] as int;
    lemma_count_upto_mono(elems, gstar, e + 1, e_total);
    assert(count_upto(elems, gstar, e + 1) == cursor0[gstar] + 1);
    assert(dst_off[gstar] + cursor0[gstar] < dst_off[gstar + 1]);
    lemma_count_upto_mono(elems, g, e, e_total);
    assert(dst_off[g] + i < dst_off[g + 1]);
    if g != gstar || i != cursor0[gstar] as int {
        lemma_slot_separate(dst_off, g, i, gstar, cursor0[gstar] as int);
    }
}

/// Placing one edge preserves the fill's state.
#[verifier::rlimit(100)]
#[verifier::spinoff_prover]
proof fn lemma_fill_step(
    elems: Seq<usize>,
    delems0: Seq<usize>,
    cursor0: Seq<usize>,
    dst_off: Seq<usize>,
    key_off: Seq<usize>,
    ns: int,
    e_total: int,
    e: int,
    kid: int,
)
    requires
        fill_ctx(elems, dst_off, key_off, ns, e_total),
        fill_inv(elems, delems0, cursor0, dst_off, key_off, ns, e, kid),
        0 <= kid < ns,
        key_off[kid] <= e < key_off[kid + 1],
        delems0.len() == e_total,
    ensures
        fill_inv(
            elems,
            delems0.update(dst_off[elems[e] as int] + cursor0[elems[e] as int], kid as usize),
            cursor0.update(elems[e] as int, (cursor0[elems[e] as int] + 1) as usize),
            dst_off,
            key_off,
            ns,
            e + 1,
            kid,
        ),
{
    let nd = dst_off.len() - 1;
    let gstar = elems[e] as int;
    lemma_fill_bounds(elems, cursor0, dst_off, key_off, ns, e_total, e, kid);
    let cur = cursor0[gstar] as int;
    let pos = dst_off[gstar] + cur;
    let delems = delems0.update(pos, kid as usize);
    let cursor = cursor0.update(gstar, (cur + 1) as usize);
    assert((kid as usize) < ns);
    // counts advance by one exactly for this gram
    assert forall|g: int| 0 <= g < nd implies #[trigger] cursor[g] == count_upto(elems, g, e + 1)
        by {}
    // containment of the new slot
    assert(crate::graph::edge_in(key_off, elems, kid, gstar)) by {
        assert(key_off[kid] <= e < key_off[kid + 1] && 0 <= e < elems.len() && elems[e]
            == gstar as usize);
    }
    // every filled slot keeps its gram's containment
    assert forall|g: int, i: int|
        0 <= g < nd && 0 <= i < cursor[g] implies crate::graph::edge_in(
        key_off,
        elems,
        #[trigger] delems[dst_off[g] + i] as int,
        g,
    ) by {
        if g == gstar && i == cur {
            assert(delems[dst_off[g] + i] == kid as usize);
        } else {
            assert(0 <= i < cursor0[g]);
            lemma_fill_frame_at(elems, cursor0, dst_off, e_total, e, g, i);
            assert(delems[dst_off[g] + i] == delems0[dst_off[g] + i]);
        }
    }
    // strict order at the segment boundary
    if cur > 0 {
        lemma_fill_frame_at(elems, cursor0, dst_off, e_total, e, gstar, cur - 1);
        let prev = delems[dst_off[gstar] + cur - 1] as int;
        assert(delems[dst_off[gstar] + cur - 1] == delems0[dst_off[gstar] + cur - 1]);
        if prev == kid {
            let e3 = choose|e3: int|
                key_off[kid] <= e3 < e && #[trigger] elems[e3] == gstar as usize;
            crate::graph::lemma_seg_strict_pair(
                elems,
                key_off[kid] as int,
                key_off[kid + 1] as int,
                e3,
                e,
            );
            assert(false);
        }
        assert(prev < kid);
    }
    assert forall|g: int, i: int|
        0 <= g < nd && 0 <= i < cursor[g] - 1 implies #[trigger] delems[dst_off[g] + i]
        < delems[dst_off[g] + i + 1] by {
        if g == gstar && i == cur - 1 {
        } else {
            assert(0 <= i < cursor0[g] - 1);
            lemma_fill_frame_at(elems, cursor0, dst_off, e_total, e, g, i);
            lemma_fill_frame_at(elems, cursor0, dst_off, e_total, e, g, i + 1);
            assert(delems[dst_off[g] + i] == delems0[dst_off[g] + i]);
            assert(delems[dst_off[g] + i + 1] == delems0[dst_off[g] + i + 1]);
        }
    }
    // the last entry of each touched segment stays bounded by this key
    assert forall|g: int|
        0 <= g < nd && 0 < cursor[g] implies ((#[trigger] delems[dst_off[g] + cursor[g] - 1])
        < kid || (delems[dst_off[g] + cursor[g] - 1] == kid && (exists|e3: int|
        key_off[kid] <= e3 < e + 1 && #[trigger] elems[e3] == g))) by {
        if g == gstar {
            assert(delems[dst_off[g] + cursor[g] - 1] == kid as usize);
            assert(key_off[kid] <= e < e + 1 && elems[e] == g);
        } else {
            assert(cursor[g] == cursor0[g]);
            if 0 < cursor0[g] {
                lemma_fill_frame_at(elems, cursor0, dst_off, e_total, e, g, cursor0[g] - 1);
                assert(delems[dst_off[g] + cursor0[g] - 1] == delems0[dst_off[g] + cursor0[g]
                    - 1]);
            }
        }
    }
    lemma_fill_complete(elems, delems0, cursor0, dst_off, key_off, ns, e_total, e, kid);
}

/// Placing one edge keeps every processed edge represented on the gram
/// side, and adds the new one.
#[verifier::rlimit(100)]
#[verifier::spinoff_prover]
proof fn lemma_fill_complete(
    elems: Seq<usize>,
    delems0: Seq<usize>,
    cursor0: Seq<usize>,
    dst_off: Seq<usize>,
    key_off: Seq<usize>,
    ns: int,
    e_total: int,
    e: int,
    kid: int,
)
    requires
        fill_ctx(elems, dst_off, key_off, ns, e_total),
        fill_inv(elems, delems0, cursor0, dst_off, key_off, ns, e, kid),
        0 <= kid < ns,
        key_off[kid] <= e < key_off[kid + 1],
        delems0.len() == e_total,
    ensures
        fill_complete_inv(
            elems,
            delems0.update(dst_off[elems[e] as int] + cursor0[elems[e] as int], kid as usize),
            cursor0.update(elems[e] as int, (cursor0[elems[e] as int] + 1) as usize),
            dst_off,
            key_off,
            ns,
            e + 1,
        ),
{
    let nd = dst_off.len() - 1;
    let gstar = elems[e] as int;
    lemma_fill_bounds(elems, cursor0, dst_off, key_off, ns, e_total, e, kid);
    let cur = cursor0[gstar] as int;
    let pos = dst_off[gstar] + cur;
    let delems = delems0.update(pos, kid as usize);
    let cursor = cursor0.update(gstar, (cur + 1) as usize);
    assert forall|k: int, e2: int|
        0 <= k < ns && #[trigger] key_off[k] <= e2 < key_off[k + 1] && e2 < e + 1 implies (
    exists|t: int|
        dst_off[#[trigger] elems[e2] as int] <= t < dst_off[elems[e2] as int]
            + cursor[elems[e2] as int] && 0 <= t < delems.len() && #[trigger] delems[t] == k) by {
        let g2 = elems[e2] as int;
        if e2 < e {
            let t = choose|t: int|
                dst_off[g2] <= t < dst_off[g2] + cursor0[g2] && 0 <= t < delems0.len() && (
                #[trigger] delems0[t]) == k as usize;
            lemma_fill_frame_at(elems, cursor0, dst_off, e_total, e, g2, t - dst_off[g2]);
            assert(t != pos);
            assert(delems[t] == k as usize);
            assert(cursor[g2] >= cursor0[g2]);
            assert(dst_off[g2] <= t < dst_off[g2] + cursor[g2] && 0 <= t < delems.len()
                && delems[t] == k as usize);
        } else {
            crate::graph::lemma_edge_interval_unique(key_off, e2, k, kid);
            assert(k == kid);
            assert(g2 == gstar);
            assert(dst_off[g2] <= pos < dst_off[g2] + cursor[g2] && 0 <= pos < delems.len()
                && delems[pos] == k as usize);
        }
    }
}

/// Crossing into the next key keeps the fill's state.
proof fn lemma_fill_kid_step(
    elems: Seq<usize>,
    delems: Seq<usize>,
    cursor: Seq<usize>,
    dst_off: Seq<usize>,
    key_off: Seq<usize>,
    ns: int,
    e_total: int,
    e: int,
    kid: int,
)
    requires
        fill_ctx(elems, dst_off, key_off, ns, e_total),
        fill_inv(elems, delems, cursor, dst_off, key_off, ns, e, kid),
        0 <= kid < ns,
        e == key_off[kid + 1],
    ensures
        fill_inv(elems, delems, cursor, dst_off, key_off, ns, e, kid + 1),
{
    let nd = dst_off.len() - 1;
    assert forall|g: int|
        0 <= g < nd && 0 < cursor[g] implies ((#[trigger] delems[dst_off[g] + cursor[g] - 1])
        < kid + 1) by {
        assert(delems[dst_off[g] + cursor[g] - 1] < kid || delems[dst_off[g] + cursor[g] - 1]
            == kid);
    }
}

/// After the last edge, the fill's state gives the graph's gram-to-key
/// facts over the full segments.
proof fn lemma_fill_final(
    elems: Seq<usize>,
    delems: Seq<usize>,
    cursor: Seq<usize>,
    dst_off: Seq<usize>,
    key_off: Seq<usize>,
    ns: int,
    e_total: int,
)
    requires
        fill_ctx(elems, dst_off, key_off, ns, e_total),
        fill_inv(elems, delems, cursor, dst_off, key_off, ns, e_total, ns),
        delems.len() == e_total,
    ensures
        forall|g: int|
            0 <= g < dst_off.len() - 1 ==> #[trigger] crate::graph::seg_strict_inc(
                delems,
                dst_off[g] as int,
                dst_off[g + 1] as int,
            ),
        forall|g: int, t: int|
            0 <= g < dst_off.len() - 1 && #[trigger] dst_off[g] <= t < dst_off[g + 1] && 0 <= t
                < delems.len() ==> crate::graph::edge_in(
                key_off,
                elems,
                #[trigger] delems[t] as int,
                g,
            ),
        forall|k: int, e2: int|
            0 <= k < ns && #[trigger] key_off[k] <= e2 < key_off[k + 1] && 0 <= e2 < elems.len()
                ==> crate::graph::edge_in(dst_off, delems, #[trigger] elems[e2] as int, k),
{
    let nd = dst_off.len() - 1;
    assert forall|g: int|
        0 <= g < nd implies #[trigger] crate::graph::seg_strict_inc(
        delems,
        dst_off[g] as int,
        dst_off[g + 1] as int,
    ) by {
        assert(cursor[g] == count_upto(elems, g, e_total));
        assert forall|t: int|
            dst_off[g] <= t < dst_off[g + 1] - 1 implies #[trigger] delems[t] < delems[t + 1] by {
            let i = t - dst_off[g];
            assert(delems[dst_off[g] + i] < delems[dst_off[g] + i + 1]);
        }
    }
    assert forall|g: int, t: int|
        0 <= g < nd && #[trigger] dst_off[g] <= t < dst_off[g + 1] && 0 <= t < delems.len()
        implies crate::graph::edge_in(key_off, elems, #[trigger] delems[t] as int, g) by {
        let i = t - dst_off[g];
        assert(cursor[g] == count_upto(elems, g, e_total));
        assert(crate::graph::edge_in(key_off, elems, delems[dst_off[g] + i] as int, g));
    }
    assert forall|k: int, e2: int|
        0 <= k < ns && #[trigger] key_off[k] <= e2 < key_off[k + 1] && 0 <= e2 < elems.len()
        implies crate::graph::edge_in(dst_off, delems, #[trigger] elems[e2] as int, k) by {
        let g2 = elems[e2] as int;
        assert(exists|t: int|
            dst_off[g2] <= t < dst_off[g2] + cursor[g2] && 0 <= t < delems.len()
                && #[trigger] delems[t] == k);
        let t = choose|t: int|
            dst_off[g2] <= t < dst_off[g2] + cursor[g2] && 0 <= t < delems.len()
                && #[trigger] delems[t] == k;
        assert(cursor[g2] == count_upto(elems, g2, e_total));
        assert(dst_off[g2] <= t < dst_off[g2 + 1] && 0 <= t < delems.len() && delems[t]
            == k as usize);
        assert(crate::graph::edge_in(dst_off, delems, g2, k));
    }
}

/// Phase four: populate the gram-to-key direction. Edges are walked in
/// key order; each key lands at its gram's next free slot, so every
/// gram's key list ends up strictly increasing.
fn fill_dst(
    s2d: &crate::packed::PackedVec,
    key_offsets: &Vec<usize>,
    dst_off: &Vec<usize>,
    swidth: usize,
    e_total: usize,
    ns: usize,
) -> (d2s: crate::packed::PackedVec)
    requires
        fill_ctx(
            crate::packed::packed_elems(*s2d),
            dst_off@,
            key_offsets@,
            ns as int,
            e_total as int,
        ),
        swidth <= 64,
        ns <= vstd::arithmetic::power2::pow2(swidth as nat),
    ensures
        ({
            let elems = crate::packed::packed_elems(*s2d);
            let delems = crate::packed::packed_elems(d2s);
            let nd = dst_off@.len() - 1;
            &&& delems.len() == e_total
            &&& (forall|t: int| 0 <= t < delems.len() ==> (#[trigger] delems[t]) < ns)
            &&& (forall|g: int|
                0 <= g < nd ==> #[trigger] crate::graph::seg_strict_inc(
                    delems,
                    dst_off@[g] as int,
                    dst_off@[g + 1] as int,
                ))
            &&& (forall|g: int, t: int|
                0 <= g < nd && #[trigger] dst_off@[g] <= t < dst_off@[g + 1] && 0 <= t
                    < delems.len() ==> crate::graph::edge_in(
                    key_offsets@,
                    elems,
                    #[trigger] delems[t] as int,
                    g,
                ))
            &&& (forall|k: int, e2: int|
                0 <= k < ns && #[trigger] key_offsets@[k] <= e2 < key_offsets@[k + 1] && 0 <= e2
                    < elems.len() ==> crate::graph::edge_in(
                    dst_off@,
                    delems,
                    #[trigger] elems[e2] as int,
                    k,
                ))
        }),
{
    let ghost elems = crate::packed::packed_elems(*s2d);
    let ghost nd = dst_off@.len() - 1;
    let mut d2s = crate::packed::packed_new(swidth, e_total);
    let mut cursor: Vec<usize> = Vec::new();
    let nd_exec = dst_off.len() - 1;
    let mut c: usize = 0;
    while c < nd_exec
        invariant
            nd_exec == nd,
            c <= nd,
            cursor@.len() == c,
            forall|g: int| 0 <= g < c ==> #[trigger] cursor@[g] == 0,
        decreases nd - c,
    {
        cursor.push(0);
        c = c + 1;
    }
    proof {
        assert(fill_inv(
            elems,
            crate::packed::packed_elems(d2s),
            cursor@,
            dst_off@,
            key_offsets@,
            ns as int,
            0,
            0,
        ));
    }
    let mut kid: usize = 0;
    let mut e: usize = 0;
    while kid < ns
        invariant
            fill_ctx(elems, dst_off@, key_offsets@, ns as int, e_total as int),
            elems == crate::packed::packed_elems(*s2d),
            nd == dst_off@.len() - 1,
            swidth <= 64,
            ns <= vstd::arithmetic::power2::pow2(swidth as nat),
            kid <= ns,
            e == key_offsets@[kid as int],
            cursor@.len() == nd,
            crate::packed::packed_elems(d2s).len() == e_total,
            crate::packed::packed_width(d2s) == swidth,
            fill_inv(
                elems,
                crate::packed::packed_elems(d2s),
                cursor@,
                dst_off@,
                key_offsets@,
                ns as int,
                e as int,
                kid as int,
            ),
        decreases ns - kid,
    {
        let seg_end = key_offsets[kid + 1];
        proof {
            crate::ef::lemma_monotone_pair(key_offsets@, kid + 1, ns as int);
        }
        while e < seg_end
            invariant
                fill_ctx(elems, dst_off@, key_offsets@, ns as int, e_total as int),
                elems == crate::packed::packed_elems(*s2d),
                nd == dst_off@.len() - 1,
                swidth <= 64,
                ns <= vstd::arithmetic::power2::pow2(swidth as nat),
                kid < ns,
                seg_end == key_offsets@[kid + 1],
                key_offsets@[kid as int] <= e <= seg_end,
                seg_end <= e_total,
                cursor@.len() == nd,
                crate::packed::packed_elems(d2s).len() == e_total,
                crate::packed::packed_width(d2s) == swidth,
                fill_inv(
                    elems,
                    crate::packed::packed_elems(d2s),
                    cursor@,
                    dst_off@,
                    key_offsets@,
                    ns as int,
                    e as int,
                    kid as int,
                ),
            decreases seg_end - e,
        {
            proof {
                lemma_fill_bounds(
                    elems,
                    cursor@,
                    dst_off@,
                    key_offsets@,
                    ns as int,
                    e_total as int,
                    e as int,
                    kid as int,
                );
                lemma_fill_step(
                    elems,
                    crate::packed::packed_elems(d2s),
                    cursor@,
                    dst_off@,
                    key_offsets@,
                    ns as int,
                    e_total as int,
                    e as int,
                    kid as int,
                );
            }
            let gstar = crate::packed::packed_get(s2d, e);
            let cur = cursor[gstar];
            let pos = dst_off[gstar] + cur;
            proof {
                vstd::arithmetic::power2::lemma2_to64();
            }
            crate::packed::packed_set(&mut d2s, pos, kid);
            cursor.set(gstar, cur + 1);
            proof {
                assert(crate::packed::packed_elems(d2s) =~= crate::packed::packed_elems(
                    d2s,
                ));
            }
            e = e + 1;
        }
        proof {
            lemma_fill_kid_step(
                elems,
                crate::packed::packed_elems(d2s),
                cursor@,
                dst_off@,
                key_offsets@,
                ns as int,
                e_total as int,
                e as int,
                kid as int,
            );
        }
        kid = kid + 1;
    }
    proof {
        lemma_fill_final(
            elems,
            crate::packed::packed_elems(d2s),
            cursor@,
            dst_off@,
            key_offsets@,
            ns as int,
            e_total as int,
        );
    }
    d2s
}

// ===================== the corpus =====================

/// Total number of edges the keys contribute.
pub open spec fn edges_total(cfg: NgramConfig, ks: Seq<Seq<char>>) -> int {
    edges_before(cfg, ks, ks.len() as int)
}

/// No key yields a single n-gram: the gram table would be empty. An
/// empty key list satisfies this vacuously.
pub open spec fn no_grams(cfg: NgramConfig, ks: Seq<Seq<char>>) -> bool {
    forall|kid: int| 0 <= kid < ks.len() ==> (#[trigger] windows_of(cfg, ks[kid])).len() == 0
}

/// The edge count over a prefix of the keys vanishes exactly when none
/// of those keys yields an n-gram.
proof fn lemma_edges_before_zero(cfg: NgramConfig, ks: Seq<Seq<char>>, k: int)
    requires
        0 <= k <= ks.len(),
        forall|kid: int|
            0 <= kid < ks.len() ==> (#[trigger] windows_of(cfg, ks[kid])).len() <= usize::MAX,
    ensures
        edges_before(cfg, ks, k) >= 0,
        (edges_before(cfg, ks, k) == 0) == (forall|kid: int|
            0 <= kid < k ==> (#[trigger] windows_of(cfg, ks[kid])).len() == 0),
    decreases k,
{
    if k > 0 {
        lemma_edges_before_zero(cfg, ks, k - 1);
        let ws = windows_of(cfg, ks[k - 1]);
        crate::grams::lemma_spec_pairs_ok(ws);
        assert(pairs_total(spec_pairs(ws)) == ws.len());
        if key_pairs(cfg, ks[k - 1]).len() == 0 {
            assert(pairs_total(spec_pairs(ws)) == 0);
        }
        if ws.len() == 0 {
            assert(spec_pairs(ws).len() == 0);
        }
        assert((key_pairs(cfg, ks[k - 1]).len() == 0) == (ws.len() == 0));
    }
}

/// Rows of empty weight lists take one bit each and hold no weight.
proof fn lemma_empty_rows_bits(rows: Seq<Seq<usize>>)
    requires
        forall|j: int| 0 <= j < rows.len() ==> (#[trigger] rows[j]).len() == 0,
    ensures
        crate::bitstream::codes_len(crate::bitstream::enc_rows(rows)) == rows.len(),
        crate::bitstream::total_weights(rows) == 0,
    decreases rows.len(),
{
    if rows.len() > 0 {
        let head = rows.drop_last();
        assert forall|j: int| 0 <= j < head.len() implies (#[trigger] head[j]).len() == 0 by {
            assert(rows[j].len() == 0);
        }
        lemma_empty_rows_bits(head);
        let last = rows.last();
        assert(crate::bitstream::enc_weights(last) =~= seq![crate::bitstream::code_gamma(0)]) by {
            assert(last.len() == 0);
        }
        assert(crate::bitstream::codes_len(seq![crate::bitstream::code_gamma(0)]) == 1) by {
            reveal_with_fuel(crate::bitstream::codes_len, 2);
            assert(seq![crate::bitstream::code_gamma(0)].drop_first() =~= Seq::<
                crate::bitstream::Code,
            >::empty());
            assert(crate::bitstream::log2floor(1) == 0);
        }
        crate::bitstream::lemma_codes_len_add(
            crate::bitstream::enc_rows(head),
            crate::bitstream::enc_weights(last),
        );
    }
}

/// With no gram anywhere, every weight row is empty, so the stream's
/// bookkeeping cannot overflow a machine word.
proof fn lemma_no_grams_no_overflow(cfg: NgramConfig, ks: Seq<Seq<char>>)
    requires
        no_grams(cfg, ks),
        ks.len() <= usize::MAX,
    ensures
        !build_overflows(cfg, ks),
{
    if build_overflows(cfg, ks) {
        let p = choose|p: int|
            0 <= p < ks.len() && push_overflows(
                rows_of(cfg, ks).subrange(0, p),
                #[trigger] rows_of(cfg, ks)[p],
            );
        let prefix = rows_of(cfg, ks).subrange(0, p);
        assert forall|j: int| 0 <= j < prefix.len() implies (#[trigger] prefix[j]).len() == 0 by {
            assert(windows_of(cfg, ks[j]).len() == 0);
            assert(spec_pairs(windows_of(cfg, ks[j])).len() == 0);
            assert(prefix[j] == counts_row(key_pairs(cfg, ks[j])));
        }
        lemma_empty_rows_bits(prefix);
        let row = rows_of(cfg, ks)[p];
        assert(windows_of(cfg, ks[p]).len() == 0);
        assert(row.len() == 0);
        assert(crate::bitstream::enc_weights(row) =~= seq![crate::bitstream::code_gamma(0)]);
        assert(crate::bitstream::codes_len(seq![crate::bitstream::code_gamma(0)]) == 1) by {
            reveal_with_fuel(crate::bitstream::codes_len, 2);
            assert(seq![crate::bitstream::code_gamma(0)].drop_first() =~= Seq::<
                crate::bitstream::Code,
            >::empty());
            assert(crate::bitstream::log2floor(1) == 0);
        }
        assert(false);
    }
}

/// The rasterized corpus: the keys, the sorted gram table, and the
/// weighted bipartite graph between them.
pub struct Corpus {
    keys: Vec<String>,
    ngrams: Vec<Vec<u32>>,
    config: NgramConfig,
    graph: crate::graph::WeightedBitFieldBipartiteGraph,
}

impl Corpus {
    /// The keys, as character sequences.
    pub closed spec fn kview(self) -> Seq<Seq<char>> {
        self.keys.deep_view()
    }

    /// The sorted gram table.
    pub closed spec fn tview(self) -> Seq<Seq<u32>> {
        self.ngrams.deep_view()
    }

    /// The build-time configuration.
    pub closed spec fn cfg(self) -> NgramConfig {
        self.config
    }

    /// The underlying graph.
    pub closed spec fn gview(self) -> crate::graph::WeightedBitFieldBipartiteGraph {
        self.graph
    }

    /// The corpus is sound: the graph is well-formed, the table is sorted,
    /// and every key's edges carry exactly its sorted (n-gram, count)
    /// pairs; every table entry occurs in some key.
    pub open spec fn corpus_wf(self) -> bool {
        let g = self.gview();
        let ks = self.kview();
        let tv = self.tview();
        &&& 1 <= self.cfg().arity <= 8
        &&& ks.len() >= 1
        &&& g.wf()
        &&& table_sorted(tv)
        &&& g.spec_num_src() == ks.len()
        &&& g.spec_num_dst() == tv.len()
        &&& (forall|kid: int|
            0 <= kid < ks.len() ==> #[trigger] g.spec_src_degree(kid) == key_pairs(
                self.cfg(),
                ks[kid],
            ).len())
        &&& (forall|kid: int|
            0 <= kid < ks.len() ==> pairs_total(#[trigger] key_pairs(self.cfg(), ks[kid]))
                <= usize::MAX)
        &&& (forall|kid: int|
            0 <= kid < ks.len() ==> (#[trigger] windows_of(self.cfg(), ks[kid])).len()
                <= usize::MAX)
        &&& (forall|kid: int, j: int|
            0 <= kid < ks.len() && 0 <= j < key_pairs(self.cfg(), ks[kid]).len() ==> tv[g.s2d()[
                g.src_off()[kid] + j] as int] == (#[trigger] key_pairs(self.cfg(), ks[kid])[j]).0
                && g.wrows()[kid][j] == key_pairs(self.cfg(), ks[kid])[j].1)
        &&& (forall|g2: Seq<u32>|
            #[trigger] table_contains(tv, g2) == (exists|kid: int, j: int|
                0 <= kid < ks.len() && 0 <= j < key_pairs(self.cfg(), ks[kid]).len() && (
                #[trigger] key_pairs(self.cfg(), ks[kid])[j]).0 == g2))
    }

    /// Builds the corpus from an owned key collection, sequentially. A
    /// collection from which no n-gram can be extracted — empty, or all
    /// keys too short for the arity — is rejected.
    pub fn from(keys: Vec<String>, config: NgramConfig) -> (r: Result<Corpus, crate::BuildError>)
        ensures
            (r == Result::<Corpus, crate::BuildError>::Err(crate::BuildError::ArityOutOfRange))
                == !(1 <= config.arity <= 8),
            (r == Result::<Corpus, crate::BuildError>::Err(crate::BuildError::EmptyCorpus)) == (1
                <= config.arity <= 8 && no_grams(config, keys.deep_view())),
            (r == Result::<Corpus, crate::BuildError>::Err(crate::BuildError::BuilderOverflow))
                == (1 <= config.arity <= 8 && !no_grams(config, keys.deep_view()) && (
            build_overflows(config, keys.deep_view()) || keys.deep_view().len() >= usize::MAX
                || edges_total(config, keys.deep_view()) >= usize::MAX)),
            r matches Ok(c) ==> {
                &&& c.corpus_wf()
                &&& c.kview() == keys.deep_view()
                &&& c.cfg() == config
            },
    {
        if config.arity < 1 || config.arity > 8 {
            return Err(crate::BuildError::ArityOutOfRange);
        }
        if keys.len() == 0 {
            return Err(crate::BuildError::EmptyCorpus);
        }
        let d = match collect_key_data(&keys, &config) {
            Err(err) => {
                proof {
                    assert(keys.deep_view().len() == keys@.len());
                    if no_grams(config, keys.deep_view()) {
                        lemma_no_grams_no_overflow(config, keys.deep_view());
                        assert(false);
                    }
                }
                return Err(crate::BuildError::BuilderOverflow);
            },
            Ok(d) => d,
        };
        Corpus::finish(keys, config, d)
    }

    /// Builds the corpus with the per-key gram extraction done in
    /// parallel; the result, and every rejection, is the same as the
    /// sequential build's.
    pub fn par_from(keys: Vec<String>, config: NgramConfig) -> (r: Result<
        Corpus,
        crate::BuildError,
    >)
        ensures
            (r == Result::<Corpus, crate::BuildError>::Err(crate::BuildError::ArityOutOfRange))
                == !(1 <= config.arity <= 8),
            (r == Result::<Corpus, crate::BuildError>::Err(crate::BuildError::EmptyCorpus)) == (1
                <= config.arity <= 8 && no_grams(config, keys.deep_view())),
            (r == Result::<Corpus, crate::BuildError>::Err(crate::BuildError::BuilderOverflow))
                == (1 <= config.arity <= 8 && !no_grams(config, keys.deep_view()) && (
            build_overflows(config, keys.deep_view()) || keys.deep_view().len() >= usize::MAX
                || edges_total(config, keys.deep_view()) >= usize::MAX)),
            r matches Ok(c) ==> {
                &&& c.corpus_wf()
                &&& c.kview() == keys.deep_view()
                &&& c.cfg() == config
            },
    {
        if config.arity < 1 || config.arity > 8 {
            return Err(crate::BuildError::ArityOutOfRange);
        }
        if keys.len() == 0 {
            return Err(crate::BuildError::EmptyCorpus);
        }
        let all_pairs = par_key_pairs(&keys, &config);
        proof {
            assert forall|kid: int|
                0 <= kid < keys.deep_view().len() implies pairs_total(
                #[trigger] key_pairs(config, keys.deep_view()[kid]),
            ) <= usize::MAX by {
                assert(all_pairs@[kid].deep_view() == key_pairs(config, keys.deep_view()[kid]));
            }
            assert forall|kid: int|
                0 <= kid < keys.deep_view().len() implies (#[trigger] windows_of(
                config,
                keys.deep_view()[kid],
            )).len() <= usize::MAX by {
                assert(all_pairs@[kid].deep_view() == key_pairs(config, keys.deep_view()[kid]));
                assert(pairs_total(all_pairs@[kid].deep_view()) == windows_of(
                    config,
                    keys.deep_view()[kid],
                ).len() <= usize::MAX);
            }
        }
        let d = match assemble_key_data(&keys, &config, all_pairs) {
            Err(err) => {
                proof {
                    assert(keys.deep_view().len() == keys@.len());
                    if no_grams(config, keys.deep_view()) {
                        lemma_no_grams_no_overflow(config, keys.deep_view());
                        assert(false);
                    }
                }
                return Err(crate::BuildError::BuilderOverflow);
            },
            Ok(d) => d,
        };
        Corpus::finish(keys, config, d)
    }

    /// Rejects a gramless corpus, then hands over to the shared assembly.
    fn finish(keys: Vec<String>, config: NgramConfig, d: KeyData) -> (r: Result<
        Corpus,
        crate::BuildError,
    >)
        requires
            1 <= config.arity <= 8,
            keys.deep_view().len() > 0,
            key_data_ok(keys, config, d),
        ensures
            (r == Result::<Corpus, crate::BuildError>::Err(crate::BuildError::EmptyCorpus))
                == no_grams(config, keys.deep_view()),
            (r == Result::<Corpus, crate::BuildError>::Err(crate::BuildError::BuilderOverflow))
                == (!no_grams(config, keys.deep_view()) && (keys.deep_view().len() >= usize::MAX
                || edges_total(config, keys.deep_view()) >= usize::MAX)),
            r is Err ==> r == Result::<Corpus, crate::BuildError>::Err(
                crate::BuildError::EmptyCorpus,
            ) || r == Result::<Corpus, crate::BuildError>::Err(crate::BuildError::BuilderOverflow),
            r matches Ok(c) ==> {
                &&& c.corpus_wf()
                &&& c.kview() == keys.deep_view()
                &&& c.cfg() == config
            },
    {
        let ghost ks = keys.deep_view();
        proof {
            assert(ks.len() == keys@.len());
            lemma_edges_before_zero(config, ks, ks.len() as int);
        }
        let e_total = d.key_offsets[keys.len()];
        if e_total == 0 {
            return Err(crate::BuildError::EmptyCorpus);
        }
        if keys.len() == usize::MAX {
            return Err(crate::BuildError::BuilderOverflow);
        }
        Corpus::assemble(keys, config, d)
    }

    /// Phases two to five of the rasterizer, shared by both builders.
    #[verifier::rlimit(100)]
    #[verifier::spinoff_prover]
    fn assemble(keys: Vec<String>, config: NgramConfig, d: KeyData) -> (r: Result<
        Corpus,
        crate::BuildError,
    >)
        requires
            1 <= config.arity <= 8,
            keys.deep_view().len() > 0,
            keys.deep_view().len() < usize::MAX,
            key_data_ok(keys, config, d),
        ensures
            (r is Err) == (edges_total(config, keys.deep_view()) >= usize::MAX),
            r is Err ==> r == Result::<Corpus, crate::BuildError>::Err(
                crate::BuildError::BuilderOverflow,
            ),
            r matches Ok(c) ==> {
                &&& c.corpus_wf()
                &&& c.kview() == keys.deep_view()
                &&& c.cfg() == config
            },
    {
        let ghost ks = keys.deep_view();
        let ghost cfg = config;
        let ns = keys.len();
        proof {
            assert(keys.deep_view().len() == keys@.len());
            lemma_key_offsets_monotone(cfg, ks, d.key_offsets@);
        }
        let e_total = d.key_offsets[ns];
        if e_total == usize::MAX {
            return Err(crate::BuildError::BuilderOverflow);
        }
        // the cumulative key offsets, compressed
        let srcs_offsets = crate::ef::ef_from_vec(&d.key_offsets, e_total);
        // widths and the remap
        let gwidth = pow2_width(d.table.len());
        let swidth = pow2_width(ns);
        proof {
            assert forall|kid: int|
                0 <= kid < ks.len() implies pairs_sorted(#[trigger] key_pairs(cfg, ks[kid])) by {
                crate::grams::lemma_spec_pairs_sorted(windows_of(cfg, ks[kid]));
            }
        }
        let (s2d, deg) = remap_edges(
            &d.all_pairs,
            &d.table,
            &d.key_offsets,
            gwidth,
            e_total,
            &config,
            Ghost(ks),
        );
        // inbound degrees and their offsets
        let dst_off_vec = dst_offsets(&deg, e_total, Ghost(crate::packed::packed_elems(s2d)));
        let dsts_offsets = crate::ef::ef_from_vec(&dst_off_vec, e_total);
        // the inverted index
        let d2s = fill_dst(&s2d, &d.key_offsets, &dst_off_vec, swidth, e_total, ns);
        // the weight stream
        let weights = d.wb.build();
        proof {
            lemma_assemble_parts(
                weights.rows_view(),
                d.key_offsets@,
                dst_off_vec@,
                crate::packed::packed_elems(s2d),
                crate::packed::packed_elems(d2s),
                d.table.deep_view(),
                cfg,
                ks,
                e_total as int,
            );
        }
        let graph = crate::graph::WeightedBitFieldBipartiteGraph::new(
            weights,
            srcs_offsets,
            dsts_offsets,
            s2d,
            d2s,
        );
        let c = Corpus { keys, ngrams: d.table, config, graph };
        proof {
            assert(c.corpus_wf());
        }
        Ok(c)
    }
}

/// The cumulative key offsets grow monotonically and start at zero.
proof fn lemma_key_offsets_monotone(cfg: NgramConfig, ks: Seq<Seq<char>>, off: Seq<usize>)
    requires
        off.len() == ks.len() + 1,
        forall|k: int| 0 <= k <= ks.len() ==> #[trigger] off[k] == edges_before(cfg, ks, k),
    ensures
        crate::ef::monotone(off),
        off[0] == 0,
        off.last() == edges_total(cfg, ks),
{
    assert forall|i: int|
        #![trigger off[i], off[i + 1]]
        0 <= i < off.len() - 1 implies off[i] <= off[i + 1] by {
        assert(off[i + 1] == edges_before(cfg, ks, i + 1));
        lemma_edges_before_mono(cfg, ks, i, i + 1);
    }
}

/// The pieces the rasterizer produced satisfy the graph's layout contract.
#[verifier::rlimit(100)]
#[verifier::spinoff_prover]
proof fn lemma_assemble_parts(
    wrows: Seq<Seq<usize>>,
    key_off: Seq<usize>,
    dst_off: Seq<usize>,
    s2d: Seq<usize>,
    d2s: Seq<usize>,
    tv: Seq<Seq<u32>>,
    cfg: NgramConfig,
    ks: Seq<Seq<char>>,
    e_total: int,
)
    requires
        ks.len() >= 1,
        wrows == rows_of(cfg, ks),
        key_off.len() == ks.len() + 1,
        forall|k: int| 0 <= k <= ks.len() ==> #[trigger] key_off[k] == edges_before(cfg, ks, k),
        e_total == key_off.last(),
        s2d.len() == e_total,
        forall|e: int| 0 <= e < e_total ==> (#[trigger] s2d[e]) < tv.len(),
        forall|kid: int|
            0 <= kid < ks.len() ==> #[trigger] crate::graph::seg_strict_inc(
                s2d,
                key_off[kid] as int,
                key_off[kid + 1] as int,
            ),
        dst_off.len() == tv.len() + 1,
        dst_off[0] == 0,
        forall|g: int|
            0 <= g < tv.len() ==> #[trigger] dst_off[g + 1] == dst_off[g] + count_upto(
                s2d,
                g,
                e_total,
            ),
        dst_off.last() == e_total,
        crate::ef::monotone(dst_off),
        d2s.len() == e_total,
        forall|t: int| 0 <= t < d2s.len() ==> (#[trigger] d2s[t]) < ks.len(),
        forall|g: int|
            0 <= g < tv.len() ==> #[trigger] crate::graph::seg_strict_inc(
                d2s,
                dst_off[g] as int,
                dst_off[g + 1] as int,
            ),
        forall|g: int, t: int|
            0 <= g < tv.len() && #[trigger] dst_off[g] <= t < dst_off[g + 1] && 0 <= t < d2s.len()
                ==> crate::graph::edge_in(key_off, s2d, #[trigger] d2s[t] as int, g),
        forall|k: int, e2: int|
            0 <= k < ks.len() && #[trigger] key_off[k] <= e2 < key_off[k + 1] && 0 <= e2
                < s2d.len() ==> crate::graph::edge_in(dst_off, d2s, #[trigger] s2d[e2] as int, k),
    ensures
        crate::graph::parts_wf(wrows, key_off, dst_off, s2d, d2s),
{
    lemma_key_offsets_monotone(cfg, ks, key_off);
    assert forall|kid: int|
        0 <= kid < ks.len() implies (#[trigger] wrows[kid]).len() == key_off[kid + 1]
        - key_off[kid] by {
        assert(wrows[kid] == counts_row(key_pairs(cfg, ks[kid])));
        assert(key_off[kid + 1] == edges_before(cfg, ks, kid + 1));
    }
}

impl Corpus {
    /// Number of keys in the corpus.
    pub fn number_of_keys(&self) -> (n: usize)
        requires
            self.corpus_wf(),
        ensures
            n == self.kview().len(),
    {
        self.keys.len()
    }

    /// Number of distinct n-grams in the corpus.
    pub fn number_of_ngrams(&self) -> (n: usize)
        requires
            self.corpus_wf(),
        ensures
            n == self.tview().len(),
    {
        self.ngrams.len()
    }

    /// The key with the given id.
    pub fn key_from_id(&self, key_id: usize) -> (k: &String)
        requires
            self.corpus_wf(),
            key_id < self.kview().len(),
        ensures
            k@ == self.kview()[key_id as int],
    {
        proof {
            assert(self.keys.deep_view().len() == self.keys@.len());
        }
        &self.keys[key_id]
    }

    /// The n-gram with the given id: the table entry of that rank.
    pub fn ngram_from_id(&self, ngram_id: usize) -> (g: Vec<u32>)
        requires
            self.corpus_wf(),
            ngram_id < self.tview().len(),
        ensures
            g@ == self.tview()[ngram_id as int],
    {
        proof {
            crate::table::lemma_deep_view_grams(self.ngrams);
        }
        let src = &self.ngrams[ngram_id];
        let mut g: Vec<u32> = Vec::new();
        let mut i: usize = 0;
        while i < src.len()
            invariant
                i <= src@.len(),
                g@ =~= src@.subrange(0, i as int),
            decreases src@.len() - i,
        {
            g.push(src[i]);
            proof {
                assert(g@ =~= src@.subrange(0, i + 1));
            }
            i = i + 1;
        }
        proof {
            assert(g@ =~= src@);
        }
        g
    }

    /// The rank of an n-gram in the table, if it occurs in the corpus.
    pub fn ngram_id_from_ngram(&self, ngram: &Vec<u32>) -> (r: Option<usize>)
        requires
            self.corpus_wf(),
        ensures
            r matches Some(i) ==> i < self.tview().len() && self.tview()[i as int] == ngram@,
            (r is Some) == table_contains(self.tview(), ngram@),
    {
        let r = index_of(&self.ngrams, ngram);
        proof {
            if r is Some {
                let i = r->Some_0;
                assert(self.tview()[i as int] == ngram@);
                assert(table_contains(self.tview(), ngram@));
            }
        }
        r
    }

    /// How many distinct n-grams a key has.
    pub fn number_of_ngrams_from_key_id(&self, key_id: usize) -> (d: usize)
        requires
            self.corpus_wf(),
            key_id < self.kview().len(),
        ensures
            d == self.gview().spec_src_degree(key_id as int),
            d == key_pairs(self.cfg(), self.kview()[key_id as int]).len(),
    {
        self.graph.src_degree(key_id)
    }

    /// How many keys contain a given n-gram.
    pub fn number_of_keys_from_ngram_id(&self, ngram_id: usize) -> (d: usize)
        requires
            self.corpus_wf(),
            ngram_id < self.tview().len(),
        ensures
            d == self.gview().spec_dst_degree(ngram_id as int),
    {
        self.graph.dst_degree(ngram_id)
    }

    /// The ids of the keys containing a given n-gram, strictly increasing.
    pub fn key_ids_from_ngram_id(&self, ngram_id: usize) -> (v: Vec<usize>)
        requires
            self.corpus_wf(),
            ngram_id < self.tview().len(),
        ensures
            v@ == self.gview().spec_srcs_from_dst(ngram_id as int),
            forall|i: int| 0 <= i < v@.len() ==> (#[trigger] v@[i]) < self.kview().len(),
            forall|i: int| 0 <= i < v@.len() - 1 ==> #[trigger] v@[i] < v@[i + 1],
    {
        let v = self.graph.srcs_from_dst(ngram_id);
        proof {
            let g = self.gview();
            crate::ef::lemma_monotone_pair(g.dst_off(), ngram_id + 1, g.dst_off().len() - 1);
            assert forall|i: int| 0 <= i < v@.len() - 1 implies #[trigger] v@[i] < v@[i + 1] by {
                let lo = g.dst_off()[ngram_id as int] as int;
                let hi = g.dst_off()[ngram_id + 1] as int;
                assert(crate::graph::seg_strict_inc(g.d2s(), lo, hi));
                assert(g.d2s()[lo + i] < g.d2s()[(lo + i) + 1]);
            }
        }
        v
    }

    /// The n-gram ids of a key, strictly increasing.
    pub fn ngram_ids_from_key(&self, key_id: usize) -> (v: Vec<usize>)
        requires
            self.corpus_wf(),
            key_id < self.kview().len(),
        ensures
            v@ == self.gview().spec_dsts_from_src(key_id as int),
            v@.len() == key_pairs(self.cfg(), self.kview()[key_id as int]).len(),
            forall|j: int|
                0 <= j < v@.len() ==> (#[trigger] v@[j]) < self.tview().len() && self.tview()[
                    v@[j] as int] == key_pairs(self.cfg(), self.kview()[key_id as int])[j].0,
    {
        let v = self.graph.dsts_from_src(key_id);
        proof {
            let g = self.gview();
            crate::ef::lemma_monotone_pair(g.src_off(), key_id + 1, g.src_off().len() - 1);
            assert(g.spec_src_degree(key_id as int) == key_pairs(
                self.cfg(),
                self.kview()[key_id as int],
            ).len());
            assert forall|j: int|
                0 <= j < v@.len() implies (#[trigger] v@[j]) < self.tview().len() && self.tview()[
                v@[j] as int] == key_pairs(self.cfg(), self.kview()[key_id as int])[j].0 by {
                assert(v@[j] == g.s2d()[g.src_off()[key_id as int] + j]);
                assert(self.tview()[g.s2d()[g.src_off()[key_id as int] + j] as int] == (
                #[trigger] key_pairs(self.cfg(), self.kview()[key_id as int])[j]).0);
            }
        }
        v
    }

    /// The per-gram occurrence counts of a key, aligned with
    /// [`Corpus::ngram_ids_from_key`].
    pub fn ngram_cooccurrences_from_key(&self, key_id: usize) -> (v: Vec<usize>)
        requires
            self.corpus_wf(),
            key_id < self.kview().len(),
        ensures
            v@ == self.gview().wrows()[key_id as int],
            v@.len() == key_pairs(self.cfg(), self.kview()[key_id as int]).len(),
            forall|j: int|
                0 <= j < v@.len() ==> #[trigger] v@[j] == key_pairs(
                    self.cfg(),
                    self.kview()[key_id as int],
                )[j].1,
    {
        let mut s = self.graph.weights_from_src(key_id);
        let ghost row = self.gview().wrows()[key_id as int];
        proof {
            let g = self.gview();
            assert(g.wrows()[key_id as int].len() == g.spec_src_degree(key_id as int));
            assert(g.spec_src_degree(key_id as int) == key_pairs(
                self.cfg(),
                self.kview()[key_id as int],
            ).len());
        }
        let n = s.len();
        let mut v: Vec<usize> = Vec::new();
        let mut i: usize = 0;
        while i < n
            invariant
                s.wf(),
                n == row.len(),
                i <= n,
                s.rest_view() =~= row.skip(i as int),
                v@ =~= row.subrange(0, i as int),
            decreases n - i,
        {
            let got = s.next();
            match got {
                Some(w) => {
                    v.push(w);
                    proof {
                        assert(row.skip(i as int)[0] == row[i as int]);
                        assert(v@ =~= row.subrange(0, i + 1));
                        assert(row.skip(i as int).drop_first() =~= row.skip(i + 1));
                    }
                },
                None => {
                    proof {
                        assert(false);
                    }
                },
            }
            i = i + 1;
        }
        proof {
            assert(v@ =~= row);
            let ps = key_pairs(self.cfg(), self.kview()[key_id as int]);
            assert forall|j: int| 0 <= j < v@.len() implies #[trigger] v@[j] == ps[j].1 by {
                assert(self.gview().wrows()[key_id as int][j] == (#[trigger] key_pairs(
                    self.cfg(),
                    self.kview()[key_id as int],
                )[j]).1);
            }
        }
        v
    }

    /// The n-gram ids of a key with their occurrence counts.
    pub fn ngram_ids_and_cooccurrences_from_key(&self, key_id: usize) -> (v: Vec<(usize, usize)>)
        requires
            self.corpus_wf(),
            key_id < self.kview().len(),
        ensures
            v@.len() == key_pairs(self.cfg(), self.kview()[key_id as int]).len(),
            forall|j: int|
                0 <= j < v@.len() ==> (#[trigger] v@[j]).0 < self.tview().len() && self.tview()[
                    v@[j].0 as int] == key_pairs(self.cfg(), self.kview()[key_id as int])[j].0
                    && v@[j].1 == key_pairs(self.cfg(), self.kview()[key_id as int])[j].1,
            forall|j: int| 0 <= j < v@.len() - 1 ==> (#[trigger] v@[j]).0 < v@[j + 1].0,
            forall|j: int|
                0 <= j < v@.len() ==> #[trigger] v@[j] == ((self.gview().s2d()[self.gview().src_off()[
                    key_id as int] + j], self.gview().wrows()[key_id as int][j])),
    {
        let ids = self.ngram_ids_from_key(key_id);
        let ws = self.ngram_cooccurrences_from_key(key_id);
        let n = ids.len();
        let mut v: Vec<(usize, usize)> = Vec::new();
        let mut i: usize = 0;
        while i < n
            invariant
                n == ids@.len() == ws@.len(),
                i <= n,
                v@.len() == i,
                forall|j: int| 0 <= j < i ==> #[trigger] v@[j] == ((ids@[j], ws@[j])),
            decreases n - i,
        {
            v.push((ids[i], ws[i]));
            i = i + 1;
        }
        proof {
            let g = self.gview();
            crate::ef::lemma_monotone_pair(g.src_off(), key_id + 1, g.src_off().len() - 1);
            assert forall|j: int| 0 <= j < v@.len() - 1 implies (#[trigger] v@[j]).0 < v@[j
                + 1].0 by {
                let lo = g.src_off()[key_id as int] as int;
                assert(crate::graph::seg_strict_inc(
                    g.s2d(),
                    lo,
                    g.src_off()[key_id + 1] as int,
                ));
                assert(g.s2d()[lo + j] < g.s2d()[(lo + j) + 1]);
            }
        }
        v
    }

    /// The n-grams of a key with their occurrence counts: exactly the
    /// key's sorted pair list.
    pub fn ngrams_and_cooccurrences_from_key(&self, key_id: usize) -> (v: Vec<(Vec<u32>, usize)>)
        requires
            self.corpus_wf(),
            key_id < self.kview().len(),
        ensures
            v.deep_view() == key_pairs(self.cfg(), self.kview()[key_id as int]),
    {
        let ids = self.ngram_ids_and_cooccurrences_from_key(key_id);
        let ghost ps = key_pairs(self.cfg(), self.kview()[key_id as int]);
        let n = ids.len();
        let mut v: Vec<(Vec<u32>, usize)> = Vec::new();
        let mut i: usize = 0;
        while i < n
            invariant
                self.corpus_wf(),
                key_id < self.kview().len(),
                ps == key_pairs(self.cfg(), self.kview()[key_id as int]),
                n == ids@.len() == ps.len(),
                forall|j: int|
                    0 <= j < n ==> (#[trigger] ids@[j]).0 < self.tview().len() && self.tview()[
                        ids@[j].0 as int] == ps[j].0 && ids@[j].1 == ps[j].1,
                i <= n,
                v@.len() == i,
                v.deep_view() =~= ps.subrange(0, i as int),
        decreases n - i,
        {
            let g = self.ngram_from_id(ids[i].0);
            v.push((g, ids[i].1));
            proof {
                crate::grams::lemma_deep_view_pairs(v);
                assert(v.deep_view() =~= ps.subrange(0, i + 1)) by {
                    assert forall|j: int| 0 <= j < i + 1 implies #[trigger] v.deep_view()[j]
                        == ps.subrange(0, i + 1)[j] by {
                        if j < i {
                            assert(v.deep_view()[j] == ps.subrange(0, i as int)[j]);
                        } else {
                            assert(v@[j] == ((g, ids@[j].1)));
                            assert(v.deep_view()[j] == ((g@, ids@[j].1)));
                        }
                    }
                }
            }
            i = i + 1;
        }
        proof {
            assert(v.deep_view() =~= ps);
        }
        v
    }

    /// The n-grams of a key, in id order.
    pub fn ngrams_from_key(&self, key_id: usize) -> (v: Vec<Vec<u32>>)
        requires
            self.corpus_wf(),
            key_id < self.kview().len(),
        ensures
            v.deep_view().len() == key_pairs(self.cfg(), self.kview()[key_id as int]).len(),
            forall|j: int|
                0 <= j < v.deep_view().len() ==> #[trigger] v.deep_view()[j] == key_pairs(
                    self.cfg(),
                    self.kview()[key_id as int],
                )[j].0,
    {
        let ps = self.ngrams_and_cooccurrences_from_key(key_id);
        let ghost psv = key_pairs(self.cfg(), self.kview()[key_id as int]);
        let n = ps.len();
        let mut v: Vec<Vec<u32>> = Vec::new();
        let mut i: usize = 0;
        proof {
            crate::grams::lemma_deep_view_pairs(ps);
        }
        let mut ps = ps;
        while i < n
            invariant
                n == ps@.len() + i,
                v@.len() == i,
                ps.deep_view() =~= psv.skip(i as int),
                psv.len() == n,
                forall|j: int| 0 <= j < i ==> #[trigger] v.deep_view()[j] == psv[j].0,
            decreases n - i,
        {
            proof {
                crate::grams::lemma_deep_view_pairs(ps);
                crate::table::lemma_deep_view_grams(v);
                assert(ps.deep_view()[0] == ((ps@[0].0@, ps@[0].1)));
            }
            let ghost oldhead = ps@[0];
            let ghost oldv = v@;
            let ghost olddeep = v.deep_view();
            let head = ps.remove(0);
            v.push(head.0);
            proof {
                crate::grams::lemma_deep_view_pairs(ps);
                crate::table::lemma_deep_view_grams(v);
                assert(head == oldhead);
                assert(psv.skip(i as int)[0] == psv[i as int]);
                assert(head.0@ == psv[i as int].0);
                assert(v.deep_view()[i as int] == head.0@);
                assert forall|j: int| 0 <= j < i implies #[trigger] v.deep_view()[j]
                    == psv[j].0 by {
                    assert(v@[j] == oldv[j]);
                    assert(olddeep[j] == oldv[j]@);
                }
                assert(ps.deep_view() =~= psv.skip(i + 1)) by {
                    assert forall|j: int| 0 <= j < ps@.len() implies #[trigger] ps.deep_view()[j]
                        == psv.skip(i + 1)[j] by {
                        assert(psv.skip(i as int)[j + 1] == psv[i + 1 + j]);
                        assert(psv.skip(i + 1)[j] == psv[i + 1 + j]);
                    }
                }
            }
            i = i + 1;
        }
        v
    }

    /// Looks a key up by its text: the stored key whose normalized form
    /// equals the argument's, if any.
    pub fn key(&self, text: &str) -> (r: Option<String>)
        requires
            self.corpus_wf(),
        ensures
            r matches Some(k) ==> (exists|kid: int|
                0 <= kid < self.kview().len() && crate::grams::norm_seq(
                    #[trigger] self.kview()[kid],
                    self.cfg().lowercase,
                ) == crate::grams::norm_seq(text@, self.cfg().lowercase) && k@
                    == self.kview()[kid]),
            r is None ==> (forall|kid: int|
                0 <= kid < self.kview().len() ==> crate::grams::norm_seq(
                    #[trigger] self.kview()[kid],
                    self.cfg().lowercase,
                ) != crate::grams::norm_seq(text@, self.cfg().lowercase)),
    {
        let want = crate::grams::norm_str(text, self.config().lowercase);
        let n = self.keys.len();
        let mut kid: usize = 0;
        proof {
            assert(self.keys.deep_view().len() == self.keys@.len());
        }
        while kid < n
            invariant
                self.corpus_wf(),
                n == self.keys@.len(),
                self.kview().len() == self.keys@.len(),
                want@ == crate::grams::norm_seq(text@, self.cfg().lowercase),
                kid <= n,
                forall|k2: int|
                    0 <= k2 < kid ==> crate::grams::norm_seq(
                        #[trigger] self.kview()[k2],
                        self.cfg().lowercase,
                    ) != crate::grams::norm_seq(text@, self.cfg().lowercase),
            decreases n - kid,
        {
            let have = crate::grams::norm_str(self.keys[kid].as_str(), self.config().lowercase);
            let o = crate::grams::lex_cmp(&have, &want);
            if o == 0 {
                let k = self.keys[kid].clone();
                proof {
                    assert(self.kview()[kid as int] == self.keys@[kid as int]@);
                    assert(crate::grams::norm_seq(self.kview()[kid as int], self.cfg().lowercase)
                        == crate::grams::norm_seq(text@, self.cfg().lowercase));
                }
                return Some(k);
            }
            proof {
                assert(self.kview()[kid as int] == self.keys@[kid as int]@);
            }
            kid = kid + 1;
        }
        None
    }

    /// The build-time configuration.
    pub fn config(&self) -> (cfg: &NgramConfig)
        ensures
            *cfg == self.cfg(),
    {
        &self.config
    }

    /// The underlying bipartite graph.
    pub fn graph(&self) -> (g: &crate::graph::WeightedBitFieldBipartiteGraph)
        requires
            self.corpus_wf(),
        ensures
            *g == self.gview(),
            g.wf(),
    {
        &self.graph
    }
}

/// In a sorted table, equal entries share their rank: looking a table
/// entry up returns exactly its id.
pub proof fn lemma_ngram_rank_unique(t: Seq<Seq<u32>>, i: int, j: int)
    requires
        table_sorted(t),
        0 <= i < t.len(),
        0 <= j < t.len(),
        t[i] == t[j],
    ensures
        i == j,
{
    if i < j {
        crate::table::lemma_table_sorted_pair(t, i, j);
        crate::grams::lemma_lex_trichotomy(t[i], t[j]);
    }
    if j < i {
        crate::table::lemma_table_sorted_pair(t, j, i);
        crate::grams::lemma_lex_trichotomy(t[i], t[j]);
    }
}

/// The rasterizer is deterministic: any two well-formed corpora over the
/// same keys and configuration hold the same gram table, the same key
/// offsets, the same key-to-gram ids and the same weights. In particular
/// the sequential and the parallel builder agree.
#[verifier::rlimit(100)]
#[verifier::spinoff_prover]
pub proof fn lemma_build_deterministic(a: Corpus, b: Corpus)
    requires
        a.corpus_wf(),
        b.corpus_wf(),
        a.kview() == b.kview(),
        a.cfg() == b.cfg(),
    ensures
        a.tview() == b.tview(),
        a.gview().src_off() == b.gview().src_off(),
        a.gview().wrows() == b.gview().wrows(),
{
    let ks = a.kview();
    let cfg = a.cfg();
    let ga = a.gview();
    let gb = b.gview();
    // the tables share their membership, so they are equal
    assert forall|g: Seq<u32>| #[trigger] table_contains(a.tview(), g) == table_contains(
        b.tview(),
        g,
    ) by {}
    crate::table::lemma_table_unique(a.tview(), b.tview());
    let tv = a.tview();
    // the offsets both telescope over the same per-key degrees
    assert(ga.src_off().len() == gb.src_off().len());
    assert forall|kid: int| 0 <= kid < ga.src_off().len() implies #[trigger] ga.src_off()[kid]
        == gb.src_off()[kid] by {
        lemma_src_off_deterministic(a, b, kid);
    }
    assert(ga.src_off() =~= gb.src_off());
    // the weight rows are each key's pair counts
    assert forall|kid: int| 0 <= kid < ks.len() implies #[trigger] ga.wrows()[kid]
        == gb.wrows()[kid] by {
        let ps = key_pairs(cfg, ks[kid]);
        assert(ga.spec_src_degree(kid) == ps.len());
        assert(gb.spec_src_degree(kid) == ps.len());
        assert(ga.wrows()[kid].len() == ga.spec_src_degree(kid));
        assert(gb.wrows()[kid].len() == gb.spec_src_degree(kid));
        assert forall|j: int| 0 <= j < ps.len() implies #[trigger] ga.wrows()[kid][j]
            == gb.wrows()[kid][j] by {
            assert(ga.wrows()[kid][j] == (#[trigger] key_pairs(cfg, ks[kid])[j]).1);
            assert(gb.wrows()[kid][j] == key_pairs(cfg, ks[kid])[j].1);
        }
        assert(ga.wrows()[kid] =~= gb.wrows()[kid]);
    }
    assert(ga.wrows() =~= gb.wrows());
}

/// Two well-formed corpora over the same input share each key offset.
proof fn lemma_src_off_deterministic(a: Corpus, b: Corpus, kid: int)
    requires
        a.corpus_wf(),
        b.corpus_wf(),
        a.kview() == b.kview(),
        a.cfg() == b.cfg(),
        0 <= kid < a.gview().src_off().len(),
        b.gview().src_off().len() == a.gview().src_off().len(),
    ensures
        a.gview().src_off()[kid] == b.gview().src_off()[kid],
    decreases kid,
{
    if kid > 0 {
        lemma_src_off_deterministic(a, b, kid - 1);
        assert(a.gview().spec_src_degree(kid - 1) == key_pairs(
            a.cfg(),
            a.kview()[kid - 1],
        ).len());
        assert(b.gview().spec_src_degree(kid - 1) == key_pairs(
            a.cfg(),
            a.kview()[kid - 1],
        ).len());
    }
}

/// Relies on rayon's indexed parallel map, which keeps order: each key's
/// pairs are computed by the library's own verified extraction, one task
/// per key.
#[verifier::external_body]
fn par_key_pairs(keys: &Vec<String>, cfg: &NgramConfig) -> (out: Vec<Vec<(Vec<u32>, usize)>>)
    requires
        cfg.arity >= 1,
    ensures
        out@.len() == keys.deep_view().len(),
        forall|kid: int|
            0 <= kid < keys.deep_view().len() ==> (#[trigger] out@[kid]).deep_view() == key_pairs(
                *cfg,
                keys.deep_view()[kid],
            ) && pairs_total(out@[kid].deep_view()) == windows_of(
                *cfg,
                keys.deep_view()[kid],
            ).len() <= usize::MAX,
{
    rayon::iter::ParallelIterator::collect(
        rayon::iter::ParallelIterator::map(
            rayon::iter::IntoParallelRefIterator::par_iter(keys),
            |key: &String| counts(cfg, key.as_str()),
        ),
    )
}

/// The sequential tail of phase one for the parallel builder.
fn assemble_key_data(
    keys: &Vec<String>,
    cfg: &NgramConfig,
    all_pairs: Vec<Vec<(Vec<u32>, usize)>>,
) -> (r: Result<KeyData, crate::BuildError>)
    requires
        cfg.arity >= 1,
        all_pairs@.len() == keys.deep_view().len(),
        forall|kid: int|
            0 <= kid < keys.deep_view().len() ==> (#[trigger] all_pairs@[kid]).deep_view()
                == key_pairs(*cfg, keys.deep_view()[kid]),
        forall|kid: int|
            0 <= kid < keys.deep_view().len() ==> pairs_total(
                #[trigger] key_pairs(*cfg, keys.deep_view()[kid]),
            ) <= usize::MAX,
        forall|kid: int|
            0 <= kid < keys.deep_view().len() ==> (#[trigger] windows_of(
                *cfg,
                keys.deep_view()[kid],
            )).len() <= usize::MAX,
    ensures
        (r is Err) == build_overflows(*cfg, keys.deep_view()),
        r is Err ==> r == Result::<KeyData, crate::BuildError>::Err(
            crate::BuildError::BuilderOverflow,
        ),
        r matches Ok(d) ==> key_data_ok(*keys, *cfg, d),
{
    collect_from_pairs(keys, cfg, all_pairs)
}

} // verus!
