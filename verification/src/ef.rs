//! Trusted wrappers around sux's Elias-Fano structures: a compressed
//! monotone sequence with constant-time `get` and predecessor queries.

use vstd::prelude::*;

verus! {

/// A non-decreasing adjacent ordering.
pub open spec fn monotone(s: Seq<usize>) -> bool {
    forall|i: int| #![trigger s[i], s[i + 1]] 0 <= i < s.len() - 1 ==> s[i] <= s[i + 1]
}

/// Monotonicity extends to any two positions.
pub proof fn lemma_monotone_pair(s: Seq<usize>, i: int, j: int)
    requires
        monotone(s),
        0 <= i <= j < s.len(),
    ensures
        s[i] <= s[j],
    decreases j - i,
{
    if i < j {
        lemma_monotone_pair(s, i, j - 1);
        assert(s[j - 1] <= s[(j - 1) + 1]);
    }
}

/// An Elias-Fano-compressed monotone sequence (sux), carrying both select
/// accelerators so that `get` and `pred` are available.
#[verifier::external_body]
pub struct EfIndex {
    ef: sux::dict::elias_fano::EfSeqDict<usize>,
}

/// The monotone sequence held by an [`EfIndex`].
pub uninterp spec fn ef_elems(e: EfIndex) -> Seq<usize>;

/// A sequential builder for an [`EfIndex`] (sux's `EliasFanoBuilder`).
#[verifier::external_body]
pub struct EfBuilder {
    b: sux::dict::elias_fano::EliasFanoBuilder<usize>,
}

/// The values pushed into a builder so far.
pub uninterp spec fn efb_elems(b: EfBuilder) -> Seq<usize>;

/// Capacity and universe a builder was created with.
pub uninterp spec fn efb_bounds(b: EfBuilder) -> (usize, usize);

/// Relies on sux's `EliasFanoBuilder::new(n, u)`: a fresh builder for `n`
/// values, each at most `u`, holding none yet.
#[verifier::external_body]
pub fn ef_builder_new(n: usize, u: usize) -> (b: EfBuilder)
    ensures
        efb_elems(b) == Seq::<usize>::empty(),
        efb_bounds(b) == ((n, u)),
{
    EfBuilder { b: sux::dict::elias_fano::EliasFanoBuilder::new(n, u) }
}

/// Relies on sux's `EliasFanoBuilder::push`; the capacity, bound and
/// monotonicity preconditions rule out its panics.
#[verifier::external_body]
pub fn ef_push(b: &mut EfBuilder, v: usize)
    requires
        efb_elems(*old(b)).len() < efb_bounds(*old(b)).0,
        v <= efb_bounds(*old(b)).1,
        efb_elems(*old(b)).len() > 0 ==> efb_elems(*old(b)).last() <= v,
    ensures
        efb_elems(*final(b)) == efb_elems(*old(b)).push(v),
        efb_bounds(*final(b)) == efb_bounds(*old(b)),
{
    b.b.push(v);
}

/// Relies on sux's `EliasFanoBuilder::build_with_seq_and_dict`: the built
/// dictionary holds exactly the pushed values.
#[verifier::external_body]
pub fn ef_build(b: EfBuilder) -> (e: EfIndex)
    requires
        efb_elems(b).len() == efb_bounds(b).0,
    ensures
        ef_elems(e) == efb_elems(b),
{
    EfIndex { ef: b.b.build_with_seq_and_dict() }
}

/// Compresses a monotone offset vector into an Elias-Fano index.
pub fn ef_from_vec(v: &Vec<usize>, u: usize) -> (e: EfIndex)
    requires
        monotone(v@),
        v@.len() >= 1,
        v@.last() <= u,
    ensures
        ef_elems(e) == v@,
{
    let n = v.len();
    let mut efb = ef_builder_new(n, u);
    let mut i: usize = 0;
    while i < n
        invariant
            monotone(v@),
            n == v@.len(),
            v@.last() <= u,
            i <= n,
            efb_elems(efb) == v@.subrange(0, i as int),
            efb_bounds(efb) == ((n, u)),
        decreases n - i,
    {
        proof {
            lemma_monotone_pair(v@, i as int, n - 1);
            if i > 0 {
                assert(efb_elems(efb).last() == v@[i - 1]);
                lemma_monotone_pair(v@, i - 1, i as int);
            }
        }
        let x = v[i];
        ef_push(&mut efb, x);
        proof {
            assert(efb_elems(efb) =~= v@.subrange(0, i + 1));
        }
        i = i + 1;
    }
    proof {
        assert(v@.subrange(0, n as int) =~= v@);
    }
    ef_build(efb)
}

/// Relies on sux's `IndexedSeq::get` on `EliasFano`: random access to the
/// compressed sequence.
#[verifier::external_body]
pub fn ef_get(e: &EfIndex, i: usize) -> (v: usize)
    requires
        i < ef_elems(*e).len(),
    ensures
        v == ef_elems(*e)[i as int],
{
    sux::traits::IndexedSeq::get(&e.ef, i)
}

/// Relies on `EliasFano::len`: the number of stored values.
#[verifier::external_body]
pub fn ef_len(e: &EfIndex) -> (n: usize)
    ensures
        n == ef_elems(*e).len(),
{
    e.ef.len()
}

/// Relies on sux's `Pred::pred` on `EliasFano`: the greatest stored value
/// at most `x`, with one of its positions. Among equal values, which
/// position comes back is the implementation's choice, so only membership
/// and maximality are stated.
#[verifier::external_body]
pub fn ef_pred(e: &EfIndex, x: usize) -> (r: Option<(usize, usize)>)
    requires
        monotone(ef_elems(*e)),
    ensures
        (r is None) == (ef_elems(*e).len() == 0 || x < ef_elems(*e)[0]),
        r matches Some(iv) ==> {
            &&& iv.0 < ef_elems(*e).len()
            &&& ef_elems(*e)[iv.0 as int] == iv.1
            &&& iv.1 <= x
            &&& forall|j: int|
                0 <= j < ef_elems(*e).len() && #[trigger] ef_elems(*e)[j] <= x ==> ef_elems(
                    *e,
                )[j] <= iv.1
        },
{
    sux::traits::Pred::pred(&e.ef, &x)
}

} // verus!
