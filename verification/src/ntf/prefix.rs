//! The index of revisions by the first digits of their hash.

use vstd::prelude::*;

use crate::ntf::graph::{graph_is, Graph, GraphModel, NodeType};
use crate::ntf::maps::{list_of, PrefixShard};
use crate::ntf::text::{hex_digit, hex_of};

verus! {

/// The number of shards of the index.
pub const NUM_SHARDS: usize = 256;

/// The offset basis of the FNV-1a hash.
pub const FNV_BASIS: u64 = 0xcbf2_9ce4_8422_2325;

/// The prime of the FNV-1a hash.
pub const FNV_PRIME: u64 = 0x0000_0100_0000_01b3;

/// The FNV-1a hash of a byte string.
pub open spec fn fnv1a(key: Seq<u8>) -> u64
    decreases key.len(),
{
    if key.len() == 0 {
        FNV_BASIS
    } else {
        (fnv1a(key.drop_last()) ^ (key.last() as u64)).wrapping_mul(FNV_PRIME)
    }
}

/// The shard of a key.
pub open spec fn key_shard(key: Seq<u8>) -> int {
    fnv1a(key) as int % NUM_SHARDS as int
}

/// The first `nibbles` digits of a hash, all of them where it has no more.
pub open spec fn hash_prefix(hash: Seq<u8>, nibbles: nat) -> Seq<u8> {
    let n = if nibbles < 40 {
        nibbles
    } else {
        40
    };
    hex_of(hash).take(n as int).map_values(|c: char| c as u8)
}

/// The digit of a number below 16, as a byte.
fn hex_byte(n: u8) -> (r: u8)
    requires
        n < 16,
    ensures
        r == hex_digit(n as int) as u8,
{
    if n < 10 {
        0x30 + n
    } else {
        0x61 + (n - 10)
    }
}

/// The first `nibbles` lower-case hexadecimal digits of a hash, at most 40.
pub fn hash_prefix_hex(hash: &[u8; 20], nibbles: usize) -> (r: Vec<u8>)
    ensures
        r@ == hash_prefix(hash@, nibbles as nat),
{
    let n: usize = if nibbles < 40 {
        nibbles
    } else {
        40
    };
    let mut out: Vec<u8> = Vec::new();
    let mut i: usize = 0;
    while i < n
        invariant
            i <= n <= 40,
            out@.len() == i,
            forall|j: int| 0 <= j < i ==> #[trigger] out@[j] == hex_of(hash@)[j] as u8,
        decreases n - i,
    {
        let byte: u8 = hash[i / 2];
        let digit: u8 = if i % 2 == 0 {
            byte / 16
        } else {
            byte % 16
        };
        out.push(hex_byte(digit));
        i = i + 1;
    }
    assert(out@ =~= hash_prefix(hash@, nibbles as nat));
    out
}

/// The shard of a key, by its FNV-1a hash.
pub fn shard_of(key: &[u8]) -> (r: usize)
    ensures
        r == key_shard(key@),
        r < NUM_SHARDS,
{
    let mut h: u64 = FNV_BASIS;
    let mut i: usize = 0;
    while i < key.len()
        invariant
            i <= key@.len(),
            h == fnv1a(key@.take(i as int)),
        decreases key@.len() - i,
    {
        proof {
            assert(key@.take(i + 1).drop_last() =~= key@.take(i as int));
        }
        h = (h ^ (key[i] as u64)).wrapping_mul(FNV_PRIME);
        i = i + 1;
    }
    assert(key@.take(i as int) =~= key@);
    (h % 256) as usize
}

/// The index of revisions by hash prefix, in shards.
pub struct PrefixIndex {
    shards: Vec<PrefixShard>,
}

impl PrefixIndex {
    /// All shards are there, and every list in them has a node.
    pub closed spec fn wf(&self) -> bool {
        &&& self.shards@.len() == NUM_SHARDS
        &&& forall|s: int, key: Seq<u8>|
            0 <= s < NUM_SHARDS && #[trigger] self.shards@[s]@.contains_key(key)
                ==> self.shards@[s]@[key].len() > 0
    }

    /// The nodes of a key.
    pub closed spec fn nodes(&self, key: Seq<u8>) -> Seq<usize> {
        list_of(self.shards@[key_shard(key)]@, key)
    }

    /// An index without any node.
    pub fn new() -> (r: PrefixIndex)
        ensures
            r.wf(),
            forall|key: Seq<u8>| #[trigger] r.nodes(key) == Seq::<usize>::empty(),
    {
        let mut shards: Vec<PrefixShard> = Vec::new();
        let mut i: usize = 0;
        while i < NUM_SHARDS
            invariant
                i <= NUM_SHARDS,
                shards@.len() == i,
                forall|s: int| 0 <= s < i ==> #[trigger] shards@[s]@ == Map::<Seq<u8>, Seq<usize>>::empty(),
            decreases NUM_SHARDS - i,
        {
            shards.push(PrefixShard::new());
            i = i + 1;
        }
        PrefixIndex { shards }
    }

    /// Adds a node to the list of a key.
    pub fn push(&mut self, key: Vec<u8>, node: usize)
        requires
            old(self).wf(),
        ensures
            final(self).wf(),
            final(self).nodes(key@) == old(self).nodes(key@).push(node),
            forall|other: Seq<u8>|
                other != key@ ==> #[trigger] final(self).nodes(other) == old(self).nodes(other),
    {
        let s: usize = shard_of(key.as_slice());
        let ghost before = self.shards@;
        let shard = &mut self.shards[s];
        shard.push(key, node);
        proof {
            assert(self.shards@[s as int]@ == before[s as int]@.insert(
                key@,
                list_of(before[s as int]@, key@).push(node),
            ));
        }
    }

    /// The nodes of a key, if it has any.
    pub fn lookup_prefix(&self, prefix: &[u8]) -> (r: Option<&Vec<usize>>)
        requires
            self.wf(),
        ensures
            r is Some <==> self.nodes(prefix@).len() > 0,
            r matches Some(v) ==> v@ == self.nodes(prefix@),
    {
        self.shards[shard_of(prefix)].get(prefix)
    }
}

/// Whether `node` is a revision whose hash starts with `key`.
pub open spec fn has_prefix(g: GraphModel, nibbles: nat, key: Seq<u8>, node: usize) -> bool {
    (g.node_type)(node) == NodeType::Revision && hash_prefix((g.hash)(node), nibbles) == key
}

/// The revisions from `lo` up to `hi` whose hash starts with `key`, in ascending order.
pub open spec fn rev_nodes(g: GraphModel, nibbles: nat, key: Seq<u8>, lo: int, hi: int) -> Seq<
    usize,
>
    decreases hi - lo,
{
    if hi <= lo {
        Seq::empty()
    } else {
        let before = rev_nodes(g, nibbles, key, lo, hi - 1);
        if has_prefix(g, nibbles, key, (hi - 1) as usize) {
            before.push((hi - 1) as usize)
        } else {
            before
        }
    }
}

/// Adds the revisions from `lo` up to `hi` to the index.
pub fn index_revisions<G: Graph>(
    graph: &G,
    prefix_nibbles: usize,
    lo: usize,
    hi: usize,
    index: &mut PrefixIndex,
)
    requires
        old(index).wf(),
    ensures
        final(index).wf(),
        forall|g: GraphModel, key: Seq<u8>|
            #![trigger graph_is(graph, g), final(index).nodes(key)]
            graph_is(graph, g) ==> final(index).nodes(key) == old(index).nodes(key) + rev_nodes(
                g,
                prefix_nibbles as nat,
                key,
                lo as int,
                hi as int,
            ),
{
    let mut node: usize = lo;
    proof {
        assert forall|key: Seq<u8>| #[trigger] index.nodes(key) =~= old(index).nodes(key)
            + Seq::<usize>::empty() by {}
    }
    while node < hi
        invariant
            lo <= node,
            node <= hi || node == lo,
            index.wf(),
            forall|g: GraphModel, key: Seq<u8>|
                #![trigger graph_is(graph, g), index.nodes(key)]
                graph_is(graph, g) ==> index.nodes(key) == old(index).nodes(key) + rev_nodes(
                    g,
                    prefix_nibbles as nat,
                    key,
                    lo as int,
                    node as int,
                ),
        decreases hi - node,
    {
        let ghost before = *index;
        let ghost mut added: Option<Seq<u8>> = None;
        if graph.node_type(node) == NodeType::Revision {
            let hash = graph.hash(node);
            let key = hash_prefix_hex(&hash, prefix_nibbles);
            proof {
                added = Some(key@);
            }
            index.push(key, node);
        }
        assert forall|g: GraphModel, key: Seq<u8>|
            #![trigger graph_is(graph, g), index.nodes(key)]
            graph_is(graph, g) implies index.nodes(key) == old(index).nodes(key) + rev_nodes(
            g,
            prefix_nibbles as nat,
            key,
            lo as int,
            node + 1,
        ) by {
            assert(before.nodes(key) == old(index).nodes(key) + rev_nodes(
                g,
                prefix_nibbles as nat,
                key,
                lo as int,
                node as int,
            ));
            assert(has_prefix(g, prefix_nibbles as nat, key, node) <==> added == Some(key));
            assert(index.nodes(key) =~= old(index).nodes(key) + rev_nodes(
                g,
                prefix_nibbles as nat,
                key,
                lo as int,
                node + 1,
            ));
        }
        node = node + 1;
    }
}

/// `index` holds the revisions of the whole graph.
pub open spec fn indexes(index: &PrefixIndex, g: GraphModel, nibbles: nat) -> bool {
    forall|key: Seq<u8>| #[trigger]
        index.nodes(key) == rev_nodes(g, nibbles, key, 0, g.num_nodes as int)
}

/// Indexes all revisions by the first `prefix_nibbles` digits of their hash.
pub fn build_rev_prefix_index<G: Graph>(graph: &G, prefix_nibbles: usize) -> (r: PrefixIndex)
    ensures
        r.wf(),
        forall|g: GraphModel| #[trigger]
            graph_is(graph, g) ==> indexes(&r, g, prefix_nibbles as nat),
{
    let num_nodes: usize = graph.num_nodes();
    let mut index = PrefixIndex::new();
    let ghost empty = index;
    index_revisions(graph, prefix_nibbles, 0, num_nodes, &mut index);
    proof {
        assert forall|g: GraphModel| #[trigger] graph_is(graph, g) implies indexes(
            &index,
            g,
            prefix_nibbles as nat,
        ) by {
            assert forall|key: Seq<u8>| #[trigger] index.nodes(key) == rev_nodes(
                g,
                prefix_nibbles as nat,
                key,
                0,
                g.num_nodes as int,
            ) by {
                assert(empty.nodes(key) =~= Seq::<usize>::empty());
                assert(Seq::<usize>::empty() + rev_nodes(
                    g,
                    prefix_nibbles as nat,
                    key,
                    0,
                    num_nodes as int,
                ) =~= rev_nodes(g, prefix_nibbles as nat, key, 0, num_nodes as int));
            }
        }
    }
    index
}

} // verus!
