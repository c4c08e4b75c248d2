//! The bands of a scan, the rows of a band and the bits that mark nodes, item by item.

use vstd::arithmetic::power2::pow2;
use vstd::bits::lemma_u64_shr_is_div;
use vstd::prelude::*;

use crate::ntf::bits::{bits_of, word_bit};
use crate::ntf::entries::Entry;
use crate::ntf::hydrate::{dirs_ascend, rows_between, rows_entries, DirRow};
use crate::ntf::offsets::{bounds_are, crosses, offsets_ascend};

verus! {

/// Offsets ascend where none lies below the one before it.
pub proof fn law_offsets_ascend(offsets: Seq<usize>)
    ensures
        offsets_ascend(offsets) <==> forall|i: int|
            0 < i < offsets.len() ==> offsets[i - 1] <= #[trigger] offsets[i],
{
    if forall|i: int| 0 < i < offsets.len() ==> offsets[i - 1] <= #[trigger] offsets[i] {
        assert forall|i: int, j: int| 0 <= i <= j < offsets.len() implies offsets[i]
            <= offsets[j] by {
            lemma_steps_ascend(offsets, i, j);
        }
    } else {
        let i = choose|i: int| 0 < i < offsets.len() && offsets[i - 1] > #[trigger] offsets[i];
        assert(offsets[i - 1] > offsets[i]);
    }
}

proof fn lemma_steps_ascend(offsets: Seq<usize>, i: int, j: int)
    requires
        0 <= i <= j < offsets.len(),
        forall|i: int| 0 < i < offsets.len() ==> offsets[i - 1] <= #[trigger] offsets[i],
    ensures
        offsets[i] <= offsets[j],
    decreases j - i,
{
    if i < j {
        lemma_steps_ascend(offsets, i, j - 1);
        assert(offsets[j - 1] <= offsets[j]);
    }
}

/// Where the offsets ascend they cross a target at one node: as many nodes lie before it as have
/// an offset below the target.
pub proof fn law_crosses(offsets: Seq<usize>, num_nodes: usize, target: usize, node: usize)
    requires
        num_nodes <= offsets.len(),
        forall|i: int| 0 < i < offsets.len() ==> offsets[i - 1] <= #[trigger] offsets[i],
    ensures
        crosses(offsets, num_nodes, target, node) <==> node <= num_nodes && forall|m: int|
            0 <= m < num_nodes ==> (#[trigger] offsets[m] < target <==> m < node),
{
    law_offsets_ascend(offsets);
    if crosses(offsets, num_nodes, target, node) {
        assert forall|m: int| 0 <= m < num_nodes implies (#[trigger] offsets[m] < target <==> m
            < node) by {
            if m < node {
                assert(offsets[m] <= offsets[node - 1]);
            } else {
                assert(offsets[node as int] <= offsets[m]);
            }
        }
    }
}

/// The bands tile the nodes: every node lies in one band and in no other.
pub proof fn law_bands_tile(offsets: Seq<usize>, num_nodes: usize, bounds: Seq<usize>, node: usize)
    requires
        bounds_are(offsets, num_nodes, bounds),
    ensures
        bounds.len() >= 2,
        bounds[0] == 0,
        bounds.last() == num_nodes,
        node < num_nodes <==> exists|w: int|
            0 <= w < bounds.len() - 1 && #[trigger] bounds[w] <= node < bounds[w + 1],
        forall|v: int, w: int|
            #![trigger bounds[v], bounds[w]]
            0 <= v < bounds.len() - 1 && 0 <= w < bounds.len() - 1 && bounds[v] <= node
                < bounds[v + 1] && bounds[w] <= node < bounds[w + 1] ==> v == w,
{
    let k = bounds.len() - 1;
    if node < num_nodes {
        let w = lemma_band_of(bounds, node, k);
        assert(bounds[w] <= node < bounds[w + 1]);
    } else {
        assert forall|w: int| 0 <= w < k implies !(#[trigger] bounds[w] <= node < bounds[w
            + 1]) by {
            assert(bounds[w + 1] <= bounds[k]);
        }
    }
    assert forall|v: int, w: int|
        #![trigger bounds[v], bounds[w]]
        0 <= v < k && 0 <= w < k && bounds[v] <= node < bounds[v + 1] && bounds[w] <= node
            < bounds[w + 1] implies v == w by {
        if v < w {
            assert(bounds[v + 1] <= bounds[w]);
        } else if w < v {
            assert(bounds[w + 1] <= bounds[v]);
        }
    }
}

proof fn lemma_band_of(bounds: Seq<usize>, node: usize, k: int) -> (w: int)
    requires
        0 < k < bounds.len(),
        bounds[0] <= node < bounds[k],
    ensures
        0 <= w < k,
        bounds[w] <= node < bounds[w + 1],
    decreases k,
{
    if k == 1 || bounds[k - 1] <= node {
        k - 1
    } else {
        lemma_band_of(bounds, node, k - 1)
    }
}

/// Where the offsets ascend, a node lies before band `w` just where the labels of the node start
/// before the share of the bits that the bands before `w` have.
pub proof fn law_band_share(
    offsets: Seq<usize>,
    num_nodes: usize,
    bounds: Seq<usize>,
    w: int,
    node: usize,
)
    requires
        bounds_are(offsets, num_nodes, bounds),
        forall|i: int| 0 < i < offsets.len() ==> offsets[i - 1] <= #[trigger] offsets[i],
        0 < w < bounds.len() - 1,
        node < num_nodes < offsets.len(),
    ensures
        node < bounds[w] <==> (offsets[node as int] + 1) * (bounds.len() - 1)
            <= offsets[num_nodes as int] * w,
{
    law_offsets_ascend(offsets);
    let k = bounds.len() - 1;
    let all = offsets[num_nodes as int] * w;
    let at = offsets[node as int] as int;
    assert(at >= all / k <==> node >= bounds[w]);
    assert(at < all / k <==> (at + 1) * k <= all) by (nonlinear_arith)
        requires
            0 < k,
    ;
}

/// The rows of a band are those of nodes of the band, each of one node and with entries.
pub proof fn law_rows_between(rows: Seq<DirRow>, lo: usize, hi: usize)
    ensures
        rows_between(rows, lo, hi) <==> (forall|i: int|
            0 < i < rows.len() ==> rows[i - 1].0 < (#[trigger] rows[i]).0) && (forall|i: int|
            0 <= i < rows.len() ==> lo <= (#[trigger] rows[i]).0 && rows[i].0 < hi && rows[i].1
                != Seq::<Entry>::empty()),
{
    if forall|i: int| 0 < i < rows.len() ==> rows[i - 1].0 < (#[trigger] rows[i]).0 {
        assert forall|i: int, j: int| 0 <= i < j < rows.len() implies rows[i].0 < rows[j].0 by {
            lemma_rows_ascend(rows, i, j);
        }
    }
    if rows_between(rows, lo, hi) {
        assert forall|i: int| 0 < i < rows.len() implies rows[i - 1].0 < (#[trigger] rows[i]).0 by {
            assert(dirs_ascend(rows));
        }
    }
    assert forall|i: int| 0 <= i < rows.len() implies ((#[trigger] rows[i]).1.len() > 0
        <==> rows[i].1 != Seq::<Entry>::empty()) by {
        if rows[i].1.len() == 0 {
            assert(rows[i].1 =~= Seq::<Entry>::empty());
        }
    }
}

proof fn lemma_rows_ascend(rows: Seq<DirRow>, i: int, j: int)
    requires
        0 <= i < j < rows.len(),
        forall|i: int| 0 < i < rows.len() ==> rows[i - 1].0 < (#[trigger] rows[i]).0,
    ensures
        rows[i].0 < rows[j].0,
    decreases j - i,
{
    assert(rows[j - 1].0 < rows[j].0);
    if i < j - 1 {
        lemma_rows_ascend(rows, i, j - 1);
    }
}

/// There are as many entries as the entries of all rows put together.
pub proof fn law_rows_entries(rows: Seq<DirRow>)
    ensures
        rows_entries(rows) == Seq::new(rows.len(), |i: int| rows[i].1).flatten_alt().len(),
    decreases rows.len(),
{
    let each = Seq::new(rows.len(), |i: int| rows[i].1);
    if rows.len() > 0 {
        let front = rows.drop_last();
        law_rows_entries(front);
        assert(each.drop_last() =~= Seq::new(front.len(), |i: int| front[i].1));
    }
}

/// A bit of a word is set where the binary digit of that weight is one.
pub proof fn law_word_bit(word: u64, b: u64)
    requires
        b < 64,
    ensures
        word_bit(word, b) <==> (word as nat / pow2(b as nat)) % 2 == 1,
{
    lemma_u64_shr_is_div(word, b);
    assert(word & (1u64 << b) != 0 <==> (word >> b) % 2 == 1) by (bit_vector)
        requires
            b < 64,
    ;
}

/// The positions that are set number the bits of the words one after the other, the lowest bit of
/// a word first.
pub proof fn law_bits_of(words: Seq<u64>, w: int, b: int)
    requires
        0 <= b < 64,
    ensures
        bits_of(words).contains(64 * w + b) <==> 0 <= w < words.len() && (words[w] as nat / pow2(
            b as nat,
        )) % 2 == 1,
{
    let n = 64 * w + b;
    assert(n / 64 == w && n % 64 == b);
    law_word_bit(words[w], b as u64);
}

} // verus!
