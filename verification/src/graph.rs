//! The succinct weighted bipartite graph: keys on the source side, n-grams
//! on the destination side, stored as two CSR-style adjacency directions
//! with Elias-Fano offsets, bit-packed neighbor lists, and the weight
//! bitstream aligned with the key-to-gram direction.

use vstd::prelude::*;

verus! {

use crate::bitstream::{Succ, Weights, WeightsIter};
use crate::ef::{ef_get, ef_len, ef_pred, lemma_monotone_pair, monotone, EfIndex};
use crate::packed::{packed_get, packed_len, PackedVec};

/// A segment of a packed array is strictly increasing.
pub open spec fn seg_strict_inc(arr: Seq<usize>, lo: int, hi: int) -> bool {
    forall|t: int| #![trigger arr[t], arr[t + 1]] lo <= t < hi - 1 ==> arr[t] < arr[t + 1]
}

/// Offsets are monotone, start at zero, and end at the edge count.
pub open spec fn offsets_ok(off: Seq<usize>, edges: int) -> bool {
    &&& off.len() >= 1
    &&& off[0] == 0
    &&& monotone(off)
    &&& off.last() == edges
}

/// Some edge slot of `node`'s segment holds `other`.
pub open spec fn edge_in(off: Seq<usize>, arr: Seq<usize>, node: int, other: int) -> bool {
    exists|e: int|
        off[node] <= e < off[node + 1] && 0 <= e < arr.len() && #[trigger] arr[e] == other
}

/// The graph parts agree: both directions are consistent CSR layouts over
/// the same edge set, and the weight rows align with the key side.
pub open spec fn parts_wf(
    wrows: Seq<Seq<usize>>,
    src_off: Seq<usize>,
    dst_off: Seq<usize>,
    s2d: Seq<usize>,
    d2s: Seq<usize>,
) -> bool {
    let ns = src_off.len() - 1;
    let nd = dst_off.len() - 1;
    let ne = s2d.len() as int;
    &&& offsets_ok(src_off, ne)
    &&& offsets_ok(dst_off, ne)
    &&& d2s.len() == ne
    &&& wrows.len() == ns
    &&& (forall|kid: int|
        0 <= kid < ns ==> (#[trigger] wrows[kid]).len() == src_off[kid + 1] - src_off[kid])
    &&& (forall|kid: int|
        0 <= kid < ns ==> #[trigger] seg_strict_inc(
            s2d,
            src_off[kid] as int,
            src_off[kid + 1] as int,
        ))
    &&& (forall|gid: int|
        0 <= gid < nd ==> #[trigger] seg_strict_inc(
            d2s,
            dst_off[gid] as int,
            dst_off[gid + 1] as int,
        ))
    &&& (forall|e: int| 0 <= e < ne ==> (#[trigger] s2d[e]) < nd)
    &&& (forall|t: int| 0 <= t < ne ==> (#[trigger] d2s[t]) < ns)
    &&& (forall|gid: int, t: int|
        0 <= gid < nd && #[trigger] dst_off[gid] <= t < dst_off[gid + 1] && 0 <= t < ne
            ==> edge_in(src_off, s2d, #[trigger] d2s[t] as int, gid))
    &&& (forall|kid: int, e: int|
        0 <= kid < ns && #[trigger] src_off[kid] <= e < src_off[kid + 1] && 0 <= e < ne
            ==> edge_in(dst_off, d2s, #[trigger] s2d[e] as int, kid))
}

/// The bipartite graph, its two directions stored succinctly.
pub struct WeightedBitFieldBipartiteGraph {
    srcs_to_dsts_weights: Weights,
    srcs_offsets: EfIndex,
    dsts_offsets: EfIndex,
    srcs_to_dsts: PackedVec,
    dsts_to_srcs: PackedVec,
}

impl WeightedBitFieldBipartiteGraph {
    /// Cumulative outbound degrees of the keys, one entry per key plus one.
    pub closed spec fn src_off(self) -> Seq<usize> {
        crate::ef::ef_elems(self.srcs_offsets)
    }

    /// Cumulative inbound degrees of the n-grams, one entry per gram plus one.
    pub closed spec fn dst_off(self) -> Seq<usize> {
        crate::ef::ef_elems(self.dsts_offsets)
    }

    /// The key-to-gram neighbor array: gram ids, segment per key.
    pub closed spec fn s2d(self) -> Seq<usize> {
        crate::packed::packed_elems(self.srcs_to_dsts)
    }

    /// The gram-to-key neighbor array: key ids, segment per gram.
    pub closed spec fn d2s(self) -> Seq<usize> {
        crate::packed::packed_elems(self.dsts_to_srcs)
    }

    /// Per-key weight rows, aligned with the key-to-gram segments.
    pub closed spec fn wrows(self) -> Seq<Seq<usize>> {
        self.srcs_to_dsts_weights.rows_view()
    }

    /// The weight bitstream is internally sound.
    pub closed spec fn weights_wf(self) -> bool {
        self.srcs_to_dsts_weights.wf()
    }

    /// Number of source nodes (keys).
    pub open spec fn spec_num_src(self) -> int {
        self.src_off().len() - 1
    }

    /// Number of destination nodes (n-grams).
    pub open spec fn spec_num_dst(self) -> int {
        self.dst_off().len() - 1
    }

    /// Number of edges.
    pub open spec fn spec_num_edges(self) -> int {
        self.s2d().len() as int
    }

    /// Outbound degree of a key.
    pub open spec fn spec_src_degree(self, kid: int) -> int {
        self.src_off()[kid + 1] - self.src_off()[kid]
    }

    /// Inbound degree of a gram.
    pub open spec fn spec_dst_degree(self, gid: int) -> int {
        self.dst_off()[gid + 1] - self.dst_off()[gid]
    }

    /// The gram ids adjacent to a key, in segment order.
    pub open spec fn spec_dsts_from_src(self, kid: int) -> Seq<usize> {
        self.s2d().subrange(self.src_off()[kid] as int, self.src_off()[kid + 1] as int)
    }

    /// The key ids adjacent to a gram, in segment order.
    pub open spec fn spec_srcs_from_dst(self, gid: int) -> Seq<usize> {
        self.d2s().subrange(self.dst_off()[gid] as int, self.dst_off()[gid + 1] as int)
    }

    /// The edge (kid, gid) appears in the key-to-gram direction.
    pub open spec fn edge_in_src(self, kid: int, gid: int) -> bool {
        edge_in(self.src_off(), self.s2d(), kid, gid)
    }

    /// The edge (kid, gid) appears in the gram-to-key direction.
    pub open spec fn edge_in_dst(self, kid: int, gid: int) -> bool {
        edge_in(self.dst_off(), self.d2s(), gid, kid)
    }

    /// Structural soundness: both directions are consistent CSR layouts
    /// over the same edge set, and the weights align with the key side.
    pub open spec fn wf(self) -> bool {
        &&& self.weights_wf()
        &&& parts_wf(self.wrows(), self.src_off(), self.dst_off(), self.s2d(), self.d2s())
    }

    /// Assembles the graph from its parts; they must already agree as
    /// [`parts_wf`] demands.
    pub fn new(
        srcs_to_dsts_weights: Weights,
        srcs_offsets: EfIndex,
        dsts_offsets: EfIndex,
        srcs_to_dsts: PackedVec,
        dsts_to_srcs: PackedVec,
    ) -> (g: WeightedBitFieldBipartiteGraph)
        requires
            srcs_to_dsts_weights.wf(),
            parts_wf(
                srcs_to_dsts_weights.rows_view(),
                crate::ef::ef_elems(srcs_offsets),
                crate::ef::ef_elems(dsts_offsets),
                crate::packed::packed_elems(srcs_to_dsts),
                crate::packed::packed_elems(dsts_to_srcs),
            ),
        ensures
            g.wf(),
            g.wrows() == srcs_to_dsts_weights.rows_view(),
            g.src_off() == crate::ef::ef_elems(srcs_offsets),
            g.dst_off() == crate::ef::ef_elems(dsts_offsets),
            g.s2d() == crate::packed::packed_elems(srcs_to_dsts),
            g.d2s() == crate::packed::packed_elems(dsts_to_srcs),
    {
        WeightedBitFieldBipartiteGraph {
            srcs_to_dsts_weights,
            srcs_offsets,
            dsts_offsets,
            srcs_to_dsts,
            dsts_to_srcs,
        }
    }

    /// Number of keys.
    pub fn number_of_source_nodes(&self) -> (n: usize)
        requires
            self.wf(),
        ensures
            n == self.spec_num_src(),
    {
        ef_len(&self.srcs_offsets) - 1
    }

    /// Number of n-grams.
    pub fn number_of_destination_nodes(&self) -> (n: usize)
        requires
            self.wf(),
        ensures
            n == self.spec_num_dst(),
    {
        ef_len(&self.dsts_offsets) - 1
    }

    /// Number of edges.
    pub fn number_of_edges(&self) -> (n: usize)
        requires
            self.wf(),
        ensures
            n == self.spec_num_edges(),
    {
        packed_len(&self.srcs_to_dsts)
    }

    /// Cumulative outbound degree before a key.
    pub fn src_comulative_outbound_degree(&self, src_id: usize) -> (r: usize)
        requires
            self.wf(),
            src_id < self.src_off().len(),
        ensures
            r == self.src_off()[src_id as int],
    {
        ef_get(&self.srcs_offsets, src_id)
    }

    /// Cumulative inbound degree before a gram.
    pub fn dst_comulative_inbound_degree(&self, dst_id: usize) -> (r: usize)
        requires
            self.wf(),
            dst_id < self.dst_off().len(),
        ensures
            r == self.dst_off()[dst_id as int],
    {
        ef_get(&self.dsts_offsets, dst_id)
    }

    /// Outbound degree of a key.
    pub fn src_degree(&self, src_id: usize) -> (d: usize)
        requires
            self.wf(),
            src_id < self.spec_num_src(),
        ensures
            d == self.spec_src_degree(src_id as int),
    {
        let _n = ef_len(&self.srcs_offsets);
        let start = ef_get(&self.srcs_offsets, src_id);
        let end = ef_get(&self.srcs_offsets, src_id + 1);
        end - start
    }

    /// Inbound degree of a gram.
    pub fn dst_degree(&self, dst_id: usize) -> (d: usize)
        requires
            self.wf(),
            dst_id < self.spec_num_dst(),
        ensures
            d == self.spec_dst_degree(dst_id as int),
    {
        let _n = ef_len(&self.dsts_offsets);
        let start = ef_get(&self.dsts_offsets, dst_id);
        let end = ef_get(&self.dsts_offsets, dst_id + 1);
        end - start
    }

    /// The key ids adjacent to a gram, strictly increasing.
    pub fn srcs_from_dst(&self, dst_id: usize) -> (v: Vec<usize>)
        requires
            self.wf(),
            dst_id < self.spec_num_dst(),
        ensures
            v@ == self.spec_srcs_from_dst(dst_id as int),
    {
        let _n = ef_len(&self.dsts_offsets);
        let start = ef_get(&self.dsts_offsets, dst_id);
        let end = ef_get(&self.dsts_offsets, dst_id + 1);
        proof {
            lemma_monotone_pair(self.dst_off(), dst_id + 1, self.dst_off().len() - 1);
        }
        let mut v: Vec<usize> = Vec::new();
        let mut t = start;
        while t < end
            invariant
                self.wf(),
                dst_id < self.spec_num_dst(),
                start == self.dst_off()[dst_id as int],
                end == self.dst_off()[dst_id + 1],
                start <= t <= end,
                end <= self.d2s().len(),
                v@ =~= self.d2s().subrange(start as int, t as int),
            decreases end - t,
        {
            v.push(packed_get(&self.dsts_to_srcs, t));
            proof {
                assert(v@ =~= self.d2s().subrange(start as int, t + 1));
            }
            t = t + 1;
        }
        v
    }

    /// The gram ids adjacent to a key, strictly increasing.
    pub fn dsts_from_src(&self, src_id: usize) -> (v: Vec<usize>)
        requires
            self.wf(),
            src_id < self.spec_num_src(),
        ensures
            v@ == self.spec_dsts_from_src(src_id as int),
    {
        let _n = ef_len(&self.srcs_offsets);
        let start = ef_get(&self.srcs_offsets, src_id);
        let end = ef_get(&self.srcs_offsets, src_id + 1);
        proof {
            lemma_monotone_pair(self.src_off(), src_id + 1, self.src_off().len() - 1);
        }
        let mut v: Vec<usize> = Vec::new();
        let mut e = start;
        while e < end
            invariant
                self.wf(),
                src_id < self.spec_num_src(),
                start == self.src_off()[src_id as int],
                end == self.src_off()[src_id + 1],
                start <= e <= end,
                end <= self.s2d().len(),
                v@ =~= self.s2d().subrange(start as int, e as int),
            decreases end - e,
        {
            v.push(packed_get(&self.srcs_to_dsts, e));
            proof {
                assert(v@ =~= self.s2d().subrange(start as int, e + 1));
            }
            e = e + 1;
        }
        v
    }

    /// A lazy decoder over one key's weights, aligned with
    /// [`WeightedBitFieldBipartiteGraph::dsts_from_src`].
    pub fn weights_from_src(&self, src_id: usize) -> (s: Succ)
        requires
            self.wf(),
            src_id < self.spec_num_src(),
        ensures
            s.wf(),
            s.rest_view() == self.wrows()[src_id as int],
    {
        self.srcs_to_dsts_weights.labels(src_id)
    }

    /// An iterator over all edge weights, in key order.
    pub fn weights(&self) -> (it: WeightsIter)
        requires
            self.wf(),
            self.spec_num_src() > 0,
        ensures
            it.wf(),
            it.remaining() == crate::bitstream::flat_rows(self.wrows()),
    {
        self.srcs_to_dsts_weights.weights()
    }

    /// All degrees: each key's outbound degree, then each gram's inbound
    /// degree.
    pub fn degrees(&self) -> (v: Vec<usize>)
        requires
            self.wf(),
        ensures
            v@.len() == self.spec_num_src() + self.spec_num_dst(),
            forall|kid: int|
                0 <= kid < self.spec_num_src() ==> v@[kid] == self.spec_src_degree(kid),
            forall|gid: int|
                0 <= gid < self.spec_num_dst() ==> v@[self.spec_num_src() + gid]
                    == self.spec_dst_degree(gid),
    {
        let ns = ef_len(&self.srcs_offsets) - 1;
        let nd = ef_len(&self.dsts_offsets) - 1;
        let mut v: Vec<usize> = Vec::new();
        let mut kid: usize = 0;
        while kid < ns
            invariant
                self.wf(),
                ns == self.spec_num_src(),
                kid <= ns,
                v@.len() == kid,
                forall|j: int| 0 <= j < kid ==> v@[j] == self.spec_src_degree(j),
            decreases ns - kid,
        {
            let d = self.src_degree(kid);
            v.push(d);
            kid = kid + 1;
        }
        let mut gid: usize = 0;
        while gid < nd
            invariant
                self.wf(),
                ns == self.spec_num_src(),
                nd == self.spec_num_dst(),
                gid <= nd,
                v@.len() == ns + gid,
                forall|j: int| 0 <= j < ns ==> v@[j] == self.spec_src_degree(j),
                forall|j: int| 0 <= j < gid ==> v@[ns + j] == self.spec_dst_degree(j),
            decreases nd - gid,
        {
            let d = self.dst_degree(gid);
            v.push(d);
            gid = gid + 1;
        }
        v
    }

    /// The unique key whose edge range contains the given edge id.
    pub fn src_id_from_edge_id(&self, edge_id: usize) -> (kid: usize)
        requires
            self.wf(),
            edge_id < self.spec_num_edges(),
        ensures
            kid < self.spec_num_src(),
            self.src_off()[kid as int] <= edge_id < self.src_off()[kid + 1],
    {
        Self::locate(&self.srcs_offsets, edge_id, Ghost(self.spec_num_edges()))
    }

    /// The unique gram whose edge range contains the given edge id.
    pub fn dst_id_from_edge_id(&self, edge_id: usize) -> (gid: usize)
        requires
            self.wf(),
            edge_id < self.spec_num_edges(),
        ensures
            gid < self.spec_num_dst(),
            self.dst_off()[gid as int] <= edge_id < self.dst_off()[gid + 1],
    {
        Self::locate(&self.dsts_offsets, edge_id, Ghost(self.spec_num_edges()))
    }

    /// Finds the offset interval holding an edge id: a predecessor query,
    /// then a short walk right across entries equal to the predecessor.
    fn locate(off: &EfIndex, edge_id: usize, Ghost(ne): Ghost<int>) -> (i: usize)
        requires
            offsets_ok(crate::ef::ef_elems(*off), ne),
            edge_id < ne,
        ensures
            i + 1 < crate::ef::ef_elems(*off).len(),
            crate::ef::ef_elems(*off)[i as int] <= edge_id < crate::ef::ef_elems(*off)[i + 1],
    {
        let ghost elems = crate::ef::ef_elems(*off);
        let n = ef_len(off);
        let r = ef_pred(off, edge_id);
        let mut i = match r {
            Some(iv) => iv.0,
            None => {
                proof {
                    assert(elems[0] <= edge_id);
                    assert(false);
                }
                0
            },
        };
        proof {
            assert(elems[i as int] <= edge_id);
        }
        let mut done = false;
        while !done
            invariant
                offsets_ok(elems, ne),
                elems == crate::ef::ef_elems(*off),
                n == elems.len(),
                edge_id < ne,
                i < n,
                elems[i as int] <= edge_id,
                done ==> i + 1 < n && elems[i + 1] > edge_id,
            decreases n - i, (if done { 0int } else { 1int }),
        {
            proof {
                if i + 1 == n {
                    assert(elems[i as int] == elems.last());
                    assert(false);
                }
            }
            let nxt = ef_get(off, i + 1);
            if nxt <= edge_id {
                i = i + 1;
            } else {
                done = true;
            }
        }
        i
    }
}

// ===================== degree-sum law =====================

/// Sum of the first `k` consecutive offset differences.
pub open spec fn degree_sum(off: Seq<usize>, k: int) -> int
    decreases k,
{
    if k <= 0 {
        0
    } else {
        degree_sum(off, k - 1) + (off[k] - off[k - 1])
    }
}

/// The degree sum telescopes to the final offset.
pub proof fn lemma_degree_sum_telescopes(off: Seq<usize>, k: int)
    requires
        0 <= k < off.len(),
        off.len() >= 1,
    ensures
        degree_sum(off, k) == off[k] - off[0],
    decreases k,
{
    if k > 0 {
        lemma_degree_sum_telescopes(off, k - 1);
    }
}

/// Every key's outbound degrees and every gram's inbound degrees sum to
/// the same edge count.
pub proof fn lemma_degree_sums_equal(g: WeightedBitFieldBipartiteGraph)
    requires
        g.wf(),
    ensures
        degree_sum(g.src_off(), g.spec_num_src()) == g.spec_num_edges(),
        degree_sum(g.dst_off(), g.spec_num_dst()) == g.spec_num_edges(),
{
    lemma_degree_sum_telescopes(g.src_off(), g.spec_num_src());
    lemma_degree_sum_telescopes(g.dst_off(), g.spec_num_dst());
}

/// Strict increase within a segment extends to any two positions.
pub proof fn lemma_seg_strict_pair(arr: Seq<usize>, lo: int, hi: int, a: int, b: int)
    requires
        seg_strict_inc(arr, lo, hi),
        lo <= a < b < hi,
    ensures
        arr[a] < arr[b],
    decreases b - a,
{
    assert(arr[b - 1] < arr[(b - 1) + 1]);
    if a + 1 < b {
        lemma_seg_strict_pair(arr, lo, hi, a, b - 1);
    }
}

/// At most one offset interval holds any edge id.
pub proof fn lemma_edge_interval_unique(off: Seq<usize>, e: int, i: int, j: int)
    requires
        monotone(off),
        0 <= i,
        i + 1 < off.len(),
        0 <= j,
        j + 1 < off.len(),
        off[i] <= e < off[i + 1],
        off[j] <= e < off[j + 1],
    ensures
        i == j,
{
    if i < j {
        lemma_monotone_pair(off, i + 1, j);
    }
    if j < i {
        lemma_monotone_pair(off, j + 1, i);
    }
}

/// Both adjacency directions hold the same edges: each is contained in
/// the other.
pub proof fn lemma_edge_sets_agree(g: WeightedBitFieldBipartiteGraph)
    requires
        g.wf(),
    ensures
        forall|kid: int, gid: int|
            0 <= kid < g.spec_num_src() && 0 <= gid < g.spec_num_dst() ==> (#[trigger] g.edge_in_src(
                kid,
                gid,
            ) <==> #[trigger] g.edge_in_dst(kid, gid)),
{
    assert forall|kid: int, gid: int|
        0 <= kid < g.spec_num_src() && 0 <= gid < g.spec_num_dst() implies (#[trigger] g.edge_in_src(
        kid,
        gid,
    ) <==> #[trigger] g.edge_in_dst(kid, gid)) by {
        if g.edge_in_src(kid, gid) {
            let e = choose|e: int|
                g.src_off()[kid] <= e < g.src_off()[kid + 1] && 0 <= e < g.s2d().len()
                    && #[trigger] g.s2d()[e] == gid;
            assert(g.edge_in_dst(kid, g.s2d()[e] as int));
        }
        if g.edge_in_dst(kid, gid) {
            let t = choose|t: int|
                g.dst_off()[gid] <= t < g.dst_off()[gid + 1] && 0 <= t < g.d2s().len()
                    && #[trigger] g.d2s()[t] == kid;
            assert(g.edge_in_src(g.d2s()[t] as int, gid));
        }
    }
}

} // verus!
