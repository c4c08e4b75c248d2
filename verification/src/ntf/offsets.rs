//! The label offset index: where the labels of each node start in the label file.

use sux::traits::IndexedSeq;
use vstd::prelude::*;

verus! {

/// The bit offsets of the labels of every node, and behind them the length of the file in
/// bits: any sequence of `sux` that is read by position, such as the Elias-Fano index that
/// comes with the graph.
///
/// The sequence is owned or mapped, and the parameters of its select structure are those that
/// the graph was written with, so its type is left open. What is trusted of it is what
/// `sux::traits::IndexedSeq` documents, and no more.
#[verifier::external_body]
pub struct LabelOffsets {
    pub seq: Box<dyn IndexedSeq<Input = usize, Output = usize> + Send + Sync>,
}

/// What a [`LabelOffsets`] holds.
pub uninterp spec fn label_offsets(offsets: LabelOffsets) -> Seq<usize>;

impl View for LabelOffsets {
    type V = Seq<usize>;

    open spec fn view(&self) -> Seq<usize> {
        label_offsets(*self)
    }
}

impl LabelOffsets {
    /// `sux::traits::IndexedSeq::len` returns the number of items.
    #[verifier::external_body]
    pub(crate) fn len(&self) -> (r: usize)
        ensures
            r == label_offsets(*self).len(),
    {
        self.seq.len()
    }

    /// `sux::traits::IndexedSeq::get` returns the item at the position. It panics where
    /// there is none.
    #[verifier::external_body]
    pub(crate) fn get(&self, index: usize) -> (r: usize)
        requires
            index < label_offsets(*self).len(),
        ensures
            r == label_offsets(*self)[index as int],
    {
        self.seq.get(index)
    }
}

/// The offsets do not descend.
pub open spec fn offsets_ascend(offsets: Seq<usize>) -> bool {
    forall|i: int, j: int| 0 <= i <= j < offsets.len() ==> offsets[i] <= offsets[j]
}

/// `node` is where the offsets cross `target`: the one before lies below, its own does not.
pub open spec fn crosses(offsets: Seq<usize>, num_nodes: usize, target: usize, node: usize) -> bool {
    &&& node <= num_nodes
    &&& node < num_nodes ==> offsets[node as int] >= target
    &&& node > 0 ==> offsets[node - 1] < target
}

/// By binary search, a node up to `num_nodes` where the offsets cross `target_bit`.
///
/// Where the offsets do not descend this is the first node whose offset is not below the
/// target.
pub fn first_node_at_bit(offsets: &LabelOffsets, num_nodes: usize, target_bit: usize) -> (r: usize)
    requires
        num_nodes <= offsets@.len(),
    ensures
        crosses(offsets@, num_nodes, target_bit, r),
        offsets_ascend(offsets@) ==> forall|m: int|
            0 <= m < num_nodes ==> (offsets@[m] >= target_bit <==> m >= r),
{
    let mut lo: usize = 0;
    let mut hi: usize = num_nodes;
    while lo < hi
        invariant
            lo <= hi <= num_nodes <= offsets@.len(),
            hi < num_nodes ==> offsets@[hi as int] >= target_bit,
            lo > 0 ==> offsets@[lo - 1] < target_bit,
        decreases hi - lo,
    {
        let mid: usize = lo + (hi - lo) / 2;
        if offsets.get(mid) >= target_bit {
            hi = mid;
        } else {
            lo = mid + 1;
        }
    }
    proof {
        if offsets_ascend(offsets@) {
            assert forall|m: int| 0 <= m < num_nodes implies (offsets@[m] >= target_bit <==> m
                >= lo) by {
                if m >= lo {
                    assert(offsets@[lo as int] <= offsets@[m]);
                } else {
                    assert(offsets@[m] <= offsets@[lo - 1]);
                }
            }
        }
    }
    lo
}

/// The bit at which band `i` of `k` bands starts.
pub open spec fn band_target(total_bits: usize, i: int, k: int) -> int {
    (total_bits * i) / k
}

/// `bounds` are the boundaries of contiguous bands of the nodes below `num_nodes`: they
/// ascend from 0 to `num_nodes`, and each one between is where the offsets cross the target
/// of its band, or the same as the one before.
///
/// Where the offsets do not descend, a node lies in band `i` or a later one just where its
/// offset is not below the target of band `i`.
pub open spec fn bounds_are(offsets: Seq<usize>, num_nodes: usize, bounds: Seq<usize>) -> bool {
    let k = bounds.len() - 1;
    &&& k > 0
    &&& bounds[0] == 0
    &&& bounds[k] == num_nodes
    &&& forall|i: int, j: int|
        #![trigger bounds[i], bounds[j]]
        0 <= i <= j <= k ==> bounds[i] <= bounds[j] <= num_nodes
    &&& forall|i: int|
        0 < i < k ==> #[trigger] bounds[i] == bounds[i - 1] || crosses(
            offsets,
            num_nodes,
            band_target(offsets[num_nodes as int], i, k) as usize,
            bounds[i],
        )
    &&& offsets_ascend(offsets) ==> forall|i: int, m: int|
        0 < i < k && 0 <= m < num_nodes ==> (#[trigger] offsets[m] >= band_target(
            offsets[num_nodes as int],
            i,
            k,
        ) <==> m >= #[trigger] bounds[i])
}

/// The boundaries of `k` contiguous node bands of about equally many label bits: band `w`
/// reaches from boundary `w` to boundary `w + 1`.
pub fn band_bounds(offsets: &LabelOffsets, num_nodes: usize, k: usize) -> (r: Vec<usize>)
    requires
        0 < k < usize::MAX,
        num_nodes < offsets@.len(),
    ensures
        r@.len() == k + 1,
        bounds_are(offsets@, num_nodes, r@),
{
    let total_bits: usize = offsets.get(num_nodes);
    let mut bounds: Vec<usize> = Vec::new();
    bounds.push(0);
    let mut i: usize = 1;
    while i < k
        invariant
            1 <= i <= k,
            0 < k < usize::MAX,
            num_nodes < offsets@.len(),
            total_bits == offsets@[num_nodes as int],
            bounds@.len() == i,
            bounds@[0] == 0,
            forall|a: int, b: int|
                #![trigger bounds@[a], bounds@[b]]
                0 <= a <= b < i ==> bounds@[a] <= bounds@[b] <= num_nodes,
            forall|a: int|
                0 < a < i ==> #[trigger] bounds@[a] == bounds@[a - 1] || crosses(
                    offsets@,
                    num_nodes,
                    band_target(total_bits, a, k as int) as usize,
                    bounds@[a],
                ),
            offsets_ascend(offsets@) ==> forall|a: int, m: int|
                0 < a < i && 0 <= m < num_nodes ==> (#[trigger] offsets@[m] >= band_target(
                    total_bits,
                    a,
                    k as int,
                ) <==> m >= #[trigger] bounds@[a]),
        decreases k - i,
    {
        proof {
            lemma_band_target(total_bits, i as int, k as int);
        }
        let target: usize = ((total_bits as u128) * (i as u128) / (k as u128)) as usize;
        let found: usize = first_node_at_bit(offsets, num_nodes, target);
        let last: usize = bounds[i - 1];
        let bound: usize = if found < last {
            last
        } else {
            found
        };
        proof {
            if offsets_ascend(offsets@) && i > 1 && found < last {
                // The targets ascend, so the nodes that cross them do too.
                lemma_band_targets_ascend(total_bits, i - 1, k as int);
                assert(offsets@[found as int] >= target);
                assert(found as int >= bounds@[i - 1]);
                assert(false);
            }
        }
        bounds.push(bound);
        i = i + 1;
    }
    bounds.push(num_nodes);
    bounds
}

/// The target of a band is a bit of the file, and computing it does not overflow.
proof fn lemma_band_target(total_bits: usize, i: int, k: int)
    requires
        0 <= i < k <= usize::MAX,
    ensures
        0 <= total_bits * i <= u128::MAX,
        0 <= band_target(total_bits, i, k) <= total_bits,
{
    assert(0 <= total_bits * i <= u128::MAX) by (nonlinear_arith)
        requires
            0 <= i <= usize::MAX,
            0 <= total_bits <= usize::MAX,
            usize::MAX <= u64::MAX,
    ;
    assert(0 <= (total_bits * i) / k <= total_bits) by (nonlinear_arith)
        requires
            0 <= i < k,
            0 <= total_bits,
    ;
}

proof fn lemma_band_targets_ascend(total_bits: usize, i: int, k: int)
    requires
        0 <= i < k,
    ensures
        band_target(total_bits, i, k) <= band_target(total_bits, i + 1, k),
{
    assert((total_bits * i) / k <= (total_bits * (i + 1)) / k) by (nonlinear_arith)
        requires
            0 <= i < k,
            0 <= total_bits,
    ;
}

/// The byte of the label file that holds the first label bit of `node`.
pub fn byte_position(offsets: &LabelOffsets, node: usize) -> (r: u64)
    requires
        node < offsets@.len(),
    ensures
        r == offsets@[node as int] / 8,
{
    (offsets.get(node) / 8) as u64
}

} // verus!
