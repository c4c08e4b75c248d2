//! What makes a revision the winner, in terms of the arcs and the types of the graph.

use vstd::prelude::*;
use vstd::utf8::encode_utf8;

use crate::ntf::graph::{
    bidirectional_is, graph_is, labels_view, type_code, BackwardGraph, EdgeLabel, Graph,
    GraphModel, NodeType,
};
use crate::ntf::maps::GroupKey;
use crate::ntf::order::{bytes_less, lemma_text_total, text_less};
use crate::ntf::prefix::{fnv1a, has_prefix, hash_prefix, key_shard, rev_nodes};
use crate::ntf::provenance::{
    back_in, comes_from, first_directory, is_greatest, is_head, is_head_of_any, leads_to,
    lemma_back_last, lemma_back_step, lemma_greatest_unique, passing, pool, root_dir,
    snapshot_list, snapshots, winner,
};
use crate::ntf::scratch::{
    all_full, commit_key, full_hash_nodes, is_full_hash, is_hex_byte, is_resolved, key_resolves,
    key_rev, key_rows, resolved_in, row_text, rows_view, Input, OutRow,
};
use crate::ntf::scratch_laws::law_prefix_lookup;
use crate::ntf::sorted::ascends;
use crate::ntf::text::{full_rev_id, github_url, hex_of, origin_swhid};

verus! {

/// A model that gives the answers of the graph to all forward questions is one that the
/// contracts speak of: nothing more is asked of it.
pub proof fn law_graph_answers<G: Graph>(graph: &G, g: GraphModel)
    requires
        forall|r: usize| #[trigger] call_ensures(G::num_nodes, (graph,), r) ==> r == g.num_nodes,
        forall|n: usize, r: NodeType| #[trigger]
            call_ensures(G::node_type, (graph, n), r) ==> r == (g.node_type)(n),
        forall|n: usize, r: Vec<usize>| #[trigger]
            call_ensures(G::successors, (graph, n), r) ==> r@ == (g.succ)(n),
        forall|n: usize, r: Vec<(usize, Vec<EdgeLabel>)>| #[trigger]
            call_ensures(G::labeled_successors, (graph, n), r) ==> r@.len() == (g.labels)(n).len()
                && forall|i: int|
                0 <= i < r@.len() ==> (#[trigger] r@[i]).0 == (g.labels)(n)[i].0 && r@[i].1@ == (
                g.labels)(n)[i].1,
        forall|id: u64, r: Vec<u8>| #[trigger]
            call_ensures(G::label_name, (graph, id), r) ==> r@ == (g.label_name)(id),
        forall|s: &str, r: Option<usize>| #[trigger]
            call_ensures(G::node_id, (graph, s), r) ==> r == (g.node_id)(s@),
        forall|n: usize, r: String| #[trigger]
            call_ensures(G::swhid, (graph, n), r) ==> r@ == (g.swhid)(n),
        forall|n: usize, r: [u8; 20]| #[trigger]
            call_ensures(G::hash, (graph, n), r) ==> r@ == (g.hash)(n),
    ensures
        graph_is(graph, g),
{
    assert forall|n: usize, r: Vec<(usize, Vec<EdgeLabel>)>| #[trigger]
        call_ensures(G::labeled_successors, (graph, n), r) implies labels_view(r@) == (g.labels)(
        n,
    ) by {
        assert forall|i: int| 0 <= i < r@.len() implies #[trigger] labels_view(r@)[i] == (
        g.labels)(n)[i] by {
            assert(labels_view(r@)[i] == (r@[i].0, r@[i].1@));
            assert(r@[i].0 == (g.labels)(n)[i].0);
        }
        assert(labels_view(r@) =~= (g.labels)(n));
    }
}

/// The same with the predecessors.
pub proof fn law_backward_answers<G: BackwardGraph>(graph: &G, g: GraphModel)
    requires
        graph_is(graph, g),
        forall|n: usize, r: Vec<usize>| #[trigger]
            call_ensures(G::predecessors, (graph, n), r) ==> r@ == (g.pred)(n),
    ensures
        bidirectional_is(graph, g),
{
}

/// The codes of the node types.
pub proof fn law_type_codes()
    ensures
        type_code(NodeType::Content) == 0,
        type_code(NodeType::Directory) == 1,
        type_code(NodeType::Origin) == 2,
        type_code(NodeType::Release) == 3,
        type_code(NodeType::Revision) == 4,
        type_code(NodeType::Snapshot) == 5,
{
}

/// The snapshots of an origin are its successors of that type, each of them.
pub proof fn law_snapshots(g: GraphModel, origin: usize, s: usize)
    ensures
        snapshots(g, origin).contains(s) <==> (g.succ)(origin).contains(s) && (g.node_type)(s)
            == NodeType::Snapshot,
{
}

/// The list of the snapshots keeps the order: it is that of one part of the nodes and then that
/// of the rest, and a single node is in it just where it is a snapshot.
pub proof fn law_snapshot_list(g: GraphModel, a: Seq<usize>, b: Seq<usize>, n: usize)
    ensures
        snapshot_list(g, a + b) == snapshot_list(g, a) + snapshot_list(g, b),
        (g.node_type)(n) == NodeType::Snapshot ==> snapshot_list(g, seq![n]) == seq![n],
        (g.node_type)(n) != NodeType::Snapshot ==> snapshot_list(g, seq![n]) == Seq::<
            usize,
        >::empty(),
{
    reveal(Seq::filter);
    let p = |n: usize| (g.node_type)(n) == NodeType::Snapshot;
    Seq::filter_distributes_over_add(a, b, p);
    let none = Seq::<usize>::empty();
    assert(seq![n].drop_last() =~= none);
    assert(none.filter(p) =~= none);
    assert(seq![n].last() == n);
    assert(p(n) ==> snapshot_list(g, seq![n]) =~= seq![n]);
    assert(!p(n) ==> snapshot_list(g, seq![n]) =~= none);
}

/// A walk from `rev`, one arc or more, each taken backwards, to a snapshot in `snaps`.
pub open spec fn is_walk_back(
    g: GraphModel,
    snaps: Set<usize>,
    rev: usize,
    path: Seq<usize>,
) -> bool {
    &&& path.len() > 1
    &&& path[0] == rev
    &&& forall|i: int| 0 <= i < path.len() - 1 ==> (g.pred)(path[i]).contains(#[trigger] path[i + 1])
    &&& snaps.contains(path.last())
    &&& (g.node_type)(path.last()) == NodeType::Snapshot
}

/// A revision comes from the snapshots just where there is a walk back to one of them.
pub proof fn law_comes_from(g: GraphModel, snaps: Set<usize>, rev: usize)
    ensures
        comes_from(g, snaps, rev) <==> exists|path: Seq<usize>| is_walk_back(g, snaps, rev, path),
{
    if comes_from(g, snaps, rev) {
        let (node, steps) = choose|node: usize, steps: nat| #[trigger]
            back_in(g, rev, node, steps) && steps > 0 && (g.node_type)(node) == NodeType::Snapshot
                && snaps.contains(node);
        let path = lemma_path_of(g, rev, node, steps);
        assert(is_walk_back(g, snaps, rev, path));
    }
    if exists|path: Seq<usize>| is_walk_back(g, snaps, rev, path) {
        let path = choose|path: Seq<usize>| is_walk_back(g, snaps, rev, path);
        lemma_path_steps(g, rev, path, path.len() - 1);
        assert(back_in(g, rev, path.last(), (path.len() - 1) as nat));
    }
}

proof fn lemma_path_of(g: GraphModel, rev: usize, node: usize, steps: nat) -> (path: Seq<usize>)
    requires
        back_in(g, rev, node, steps),
    ensures
        path.len() == steps + 1,
        path[0] == rev,
        path.last() == node,
        forall|i: int|
            0 <= i < path.len() - 1 ==> (g.pred)(path[i]).contains(#[trigger] path[i + 1]),
    decreases steps,
{
    if steps == 0 {
        seq![rev]
    } else {
        let m = lemma_back_last(g, rev, node, steps);
        let before = lemma_path_of(g, rev, m, (steps - 1) as nat);
        let path = before.push(node);
        assert forall|i: int| 0 <= i < path.len() - 1 implies (g.pred)(path[i]).contains(
            #[trigger] path[i + 1],
        ) by {
            if i < before.len() - 1 {
                assert(path[i + 1] == before[i + 1]);
            }
        }
        path
    }
}

proof fn lemma_path_steps(g: GraphModel, rev: usize, path: Seq<usize>, n: int)
    requires
        0 <= n < path.len(),
        path[0] == rev,
        forall|i: int|
            0 <= i < path.len() - 1 ==> (g.pred)(path[i]).contains(#[trigger] path[i + 1]),
    ensures
        back_in(g, rev, path[n], n as nat),
    decreases n,
{
    if n > 0 {
        lemma_path_steps(g, rev, path, n - 1);
        assert((g.pred)(path[n - 1]).contains(path[n - 1 + 1]));
        lemma_back_step(g, rev, path[n - 1], path[n], (n - 1) as nat);
    }
}

/// Snapshot `s` has a branch to `b`, and `b` is the revision or a release of it.
pub open spec fn has_branch(g: GraphModel, s: usize, b: usize, rev: usize) -> bool {
    &&& (g.succ)(s).contains(b)
    &&& (g.node_type)(rev) == NodeType::Revision
    &&& b == rev || ((g.node_type)(b) == NodeType::Release && (g.succ)(b).contains(rev))
}

/// A revision is a branch head of a snapshot just where the snapshot has an arc to it, or to a
/// release that has one.
pub proof fn law_branch_head(g: GraphModel, s: usize, rev: usize)
    ensures
        is_head(g, s, rev) <==> exists|b: usize| has_branch(g, s, b, rev),
{
    if is_head(g, s, rev) {
        let i = choose|i: int|
            0 <= i < (g.succ)(s).len() && leads_to(
                g,
                #[trigger] (g.succ)(s)[i],
                rev,
            );
        assert(has_branch(g, s, (g.succ)(s)[i], rev));
    }
    if exists|b: usize| has_branch(g, s, b, rev) {
        let b = choose|b: usize| has_branch(g, s, b, rev);
        let succ = (g.succ)(s);
        let i = choose|i: int| 0 <= i < succ.len() && succ[i] == b;
        assert(leads_to(g, (g.succ)(s)[i], rev));
    }
}

/// A head of one of the snapshots is enough, and the snapshots of more visits take no head away.
pub proof fn law_head_of_any(g: GraphModel, snaps: Set<usize>, more: Set<usize>, rev: usize)
    requires
        snaps.subset_of(more),
    ensures
        is_head_of_any(g, snaps, rev) <==> exists|s: usize, b: usize|
            snaps.contains(s) && has_branch(g, s, b, rev),
        is_head_of_any(g, snaps, rev) ==> is_head_of_any(g, more, rev),
{
    if is_head_of_any(g, snaps, rev) {
        let s = choose|s: usize| #[trigger] snaps.contains(s) && is_head(g, s, rev);
        law_branch_head(g, s, rev);
        let b = choose|b: usize| has_branch(g, s, b, rev);
        assert(snaps.contains(s) && has_branch(g, s, b, rev));
        assert(more.contains(s));
    }
    if exists|s: usize, b: usize| snaps.contains(s) && has_branch(g, s, b, rev) {
        let (s, b) = choose|s: usize, b: usize| snaps.contains(s) && has_branch(g, s, b, rev);
        law_branch_head(g, s, rev);
        assert(snaps.contains(s) && is_head(g, s, rev));
    }
}

/// The root directory of a revision is the first of its successors that is a directory.
pub proof fn law_root_dir(g: GraphModel, rev: usize, i: int)
    ensures
        0 <= i < (g.succ)(rev).len() && (g.node_type)((g.succ)(rev)[i]) == NodeType::Directory && (
        forall|j: int|
            0 <= j < i ==> (g.node_type)(#[trigger] (g.succ)(rev)[j]) != NodeType::Directory)
            ==> root_dir(g, rev) == Some((g.succ)(rev)[i]),
        (forall|j: int|
            0 <= j < (g.succ)(rev).len() ==> (g.node_type)(#[trigger] (g.succ)(rev)[j])
                != NodeType::Directory) ==> root_dir(g, rev) is None,
{
    lemma_first_directory(g, (g.succ)(rev), i);
}

proof fn lemma_first_directory(g: GraphModel, nodes: Seq<usize>, i: int)
    ensures
        0 <= i < nodes.len() && (g.node_type)(nodes[i]) == NodeType::Directory && (forall|j: int|
            0 <= j < i ==> (g.node_type)(#[trigger] nodes[j]) != NodeType::Directory)
            ==> first_directory(g, nodes) == Some(nodes[i]),
        (forall|j: int|
            0 <= j < nodes.len() ==> (g.node_type)(#[trigger] nodes[j]) != NodeType::Directory)
            ==> first_directory(g, nodes) is None,
    decreases nodes.len(),
{
    if nodes.len() > 0 {
        let tail = nodes.drop_first();
        lemma_first_directory(g, tail, i - 1);
        assert forall|j: int| 0 <= j < tail.len() implies #[trigger] tail[j] == nodes[j + 1] by {}
        if 0 < i < nodes.len() && (g.node_type)(nodes[i]) == NodeType::Directory && (forall|j: int|
            0 <= j < i ==> (g.node_type)(#[trigger] nodes[j]) != NodeType::Directory) {
            assert((g.node_type)(nodes[0]) != NodeType::Directory);
            assert forall|j: int| 0 <= j < i - 1 implies (g.node_type)(#[trigger] tail[j])
                != NodeType::Directory by {
                assert(tail[j] == nodes[j + 1]);
            }
            assert(tail[i - 1] == nodes[i]);
        }
        if forall|j: int|
            0 <= j < nodes.len() ==> (g.node_type)(#[trigger] nodes[j]) != NodeType::Directory {
            assert((g.node_type)(nodes[0]) != NodeType::Directory);
            assert forall|j: int| 0 <= j < tail.len() implies (g.node_type)(#[trigger] tail[j])
                != NodeType::Directory by {
                assert(tail[j] == nodes[j + 1]);
            }
        }
    }
}

/// A candidate that comes from the snapshots, and beats every other one that does, is the winner:
/// a branch head beats what is none, and among equals the greater SWHID wins.
pub proof fn law_winner_beats_all(g: GraphModel, snaps: Set<usize>, cands: Set<usize>, w: usize)
    requires
        cands.contains(w),
        comes_from(g, snaps, w),
        forall|c: usize| #[trigger]
            cands.contains(c) && comes_from(g, snaps, c) && c != w ==> {
                ||| is_head_of_any(g, snaps, w) && !is_head_of_any(g, snaps, c)
                ||| is_head_of_any(g, snaps, w) == is_head_of_any(g, snaps, c) && text_less(
                    (g.swhid)(c),
                    (g.swhid)(w),
                )
            },
    ensures
        winner(g, snaps, cands) == Some(w),
{
    let pass = passing(g, snaps, cands);
    let heads = pass.filter(|rev: usize| is_head_of_any(g, snaps, rev));
    let chosen = pool(g, snaps, cands);
    assert(pass.contains(w));
    if is_head_of_any(g, snaps, w) {
        assert(heads.contains(w));
        assert(chosen.contains(w));
    } else {
        assert(heads.is_empty()) by {
            assert forall|c: usize| !heads.contains(c) by {
                if heads.contains(c) {
                    assert(cands.contains(c) && comes_from(g, snaps, c));
                }
            }
            assert(heads =~= Set::<usize>::empty());
        }
    }
    assert(chosen.contains(w));
    assert(!chosen.is_empty()) by {
        if chosen.is_empty() {
            assert(chosen =~= Set::<usize>::empty());
        }
    }
    assert(is_greatest(g, chosen, w)) by {
        assert forall|o: usize| #[trigger] chosen.contains(o) implies !text_less(
            (g.swhid)(w),
            (g.swhid)(o),
        ) && ((g.swhid)(o) == (g.swhid)(w) ==> o <= w) by {
            assert(pass.contains(o));
            assert(cands.contains(o) && comes_from(g, snaps, o));
            lemma_text_total((g.swhid)(o), (g.swhid)(w));
            lemma_text_total((g.swhid)(w), (g.swhid)(o));
        }
    }
    let x = winner(g, snaps, cands)->0;
    assert(is_greatest(g, chosen, x));
    lemma_greatest_unique(g, chosen, w, x);
}

/// No candidate wins where none comes from the snapshots.
pub proof fn law_no_winner(g: GraphModel, snaps: Set<usize>, cands: Set<usize>)
    requires
        forall|c: usize| #[trigger] cands.contains(c) ==> !comes_from(g, snaps, c),
    ensures
        winner(g, snaps, cands) is None,
{
    assert(passing(g, snaps, cands) =~= Set::<usize>::empty());
    assert(pool(g, snaps, cands) =~= Set::<usize>::empty());
}

/// A text comes before another where, at the first byte in which they differ, it has the smaller
/// one, or where it ends there.
pub proof fn law_text_less(a: Seq<char>, b: Seq<char>)
    ensures
        text_less(a, b) <==> exists|k: int| differ_at(encode_utf8(a), encode_utf8(b), k),
{
    law_bytes_less(encode_utf8(a), encode_utf8(b));
}

/// The byte strings are the same up to byte `k`, and there `a` ends or has the smaller byte.
pub open spec fn differ_at(a: Seq<u8>, b: Seq<u8>, k: int) -> bool {
    &&& 0 <= k <= a.len()
    &&& k < b.len()
    &&& forall|i: int| 0 <= i < k ==> #[trigger] a[i] == b[i]
    &&& k == a.len() || a[k] < b[k]
}

/// The order of byte strings.
pub proof fn law_bytes_less(a: Seq<u8>, b: Seq<u8>)
    ensures
        bytes_less(a, b) <==> exists|k: int| differ_at(a, b, k),
    decreases b.len(),
{
    if b.len() > 0 && a.len() > 0 && a[0] == b[0] {
        let (x, y) = (a.drop_first(), b.drop_first());
        law_bytes_less(x, y);
        if bytes_less(a, b) {
            let k = choose|k: int| differ_at(x, y, k);
            assert forall|i: int| 0 <= i < k + 1 implies #[trigger] a[i] == b[i] by {
                if i > 0 {
                    assert(x[i - 1] == y[i - 1]);
                }
            }
            assert(differ_at(a, b, k + 1));
        }
        if exists|k: int| differ_at(a, b, k) {
            let k = choose|k: int| differ_at(a, b, k);
            assert(k > 0);
            assert forall|i: int| 0 <= i < k - 1 implies #[trigger] x[i] == y[i] by {
                assert(a[i + 1] == b[i + 1]);
            }
            assert(differ_at(x, y, k - 1));
        }
    } else if b.len() > 0 {
        if bytes_less(a, b) {
            assert(differ_at(a, b, 0));
        }
        if exists|k: int| differ_at(a, b, k) {
            let k = choose|k: int| differ_at(a, b, k);
            if a.len() > 0 && k > 0 {
                assert(a[0] == b[0]);
            }
        }
    }
}

/// The prefix of a hash: its digits, as many as are asked for and as it has.
pub proof fn law_hash_prefix(hash: Seq<u8>, nibbles: nat)
    requires
        hash.len() == 20,
    ensures
        hash_prefix(hash, nibbles).len() == (if nibbles < 40 {
            nibbles
        } else {
            40
        }),
        forall|i: int|
            0 <= i < hash_prefix(hash, nibbles).len() ==> #[trigger] hash_prefix(hash, nibbles)[i]
                == hex_of(hash)[i] as u8,
{
}

/// The key of a commit: its bytes, as many as are asked for and as it has, with capital letters
/// in lower case and all else as it is.
pub proof fn law_commit_key(commit: Seq<char>, nibbles: nat)
    ensures
        ({
            let bytes = encode_utf8(commit);
            let key = commit_key(commit, nibbles);
            &&& key.len() == (if nibbles < bytes.len() {
                nibbles
            } else {
                bytes.len()
            })
            &&& forall|i: int|
                0 <= i < key.len() ==> #[trigger] key[i] == (if 'A' as u8 <= bytes[i] <= 'Z' as u8 {
                    (bytes[i] + ('a' as u8 - 'A' as u8)) as u8
                } else {
                    bytes[i]
                })
        }),
{
}

/// A commit is a full hash where it has forty hexadecimal digits, in lower or upper case, and
/// nothing else.
pub proof fn law_full_hash(commit: Seq<char>)
    ensures
        is_full_hash(commit) <==> encode_utf8(commit).len() == 40 && forall|i: int|
            0 <= i < 40 ==> "0123456789abcdefABCDEF"@.contains(
                #[trigger] encode_utf8(commit)[i] as char,
            ),
{
    reveal_strlit("0123456789abcdefABCDEF");
    let digits = "0123456789abcdefABCDEF"@;
    let bytes = encode_utf8(commit);
    assert forall|b: u8| #[trigger] digits.contains(b as char) <==> is_hex_byte(
        b,
    ) by {
        if is_hex_byte(b) {
            let k: int = if b <= 0x39 {
                b - 0x30
            } else if b <= 0x46 {
                16 + (b - 0x41)
            } else {
                10 + (b - 0x61)
            };
            assert(digits[k] == b as char);
        }
        if digits.contains(b as char) {
            let k = choose|k: int| 0 <= k < digits.len() && digits[k] == b as char;
            assert(digits[k] as u32 == b as u32);
        }
    }
    if is_full_hash(commit) {
        assert forall|i: int| 0 <= i < 40 implies digits.contains(#[trigger] bytes[i] as char) by {
            assert(is_hex_byte(bytes[i]));
        }
    }
    if bytes.len() == 40 && forall|i: int|
        0 <= i < 40 ==> digits.contains(#[trigger] bytes[i] as char) {
        assert forall|i: int| 0 <= i < 40 implies is_hex_byte(
            #[trigger] bytes[i],
        ) by {
            assert(digits.contains(bytes[i] as char));
        }
    }
}

/// The commits of a table count as full hashes only where there are some and every one is.
pub proof fn law_all_full(commits: Seq<String>)
    ensures
        all_full(commits) <==> commits.len() > 0 && forall|i: int|
            0 <= i < commits.len() ==> is_full_hash((#[trigger] commits[i])@),
{
}

/// The prefix index has for a key just the revisions whose hash starts with these digits.
pub proof fn law_prefix_digits(g: GraphModel, nibbles: nat, key: Seq<u8>, n: usize)
    requires
        (g.hash)(n).len() == 20,
    ensures
        rev_nodes(g, nibbles, key, 0, g.num_nodes as int).contains(n) <==> {
            &&& n < g.num_nodes
            &&& (g.node_type)(n) == NodeType::Revision
            &&& key.len() == (if nibbles < 40 {
                nibbles
            } else {
                40
            })
            &&& forall|i: int|
                0 <= i < key.len() ==> #[trigger] key[i] == hex_of((g.hash)(n))[i] as u8
        },
        ascends(rev_nodes(g, nibbles, key, 0, g.num_nodes as int)),
{
    law_prefix_lookup(g, nibbles, key, 0, g.num_nodes as int);
    assert(has_prefix(g, nibbles, key, n) <==> (g.node_type)(n) == NodeType::Revision
        && hash_prefix((g.hash)(n), nibbles) == key);
    law_hash_prefix((g.hash)(n), nibbles);
    let prefix = hash_prefix((g.hash)(n), nibbles);
    if key.len() == prefix.len() && forall|i: int|
        0 <= i < key.len() ==> #[trigger] key[i] == hex_of((g.hash)(n))[i] as u8 {
        assert(prefix =~= key);
    }
}

/// The hash by which keys are spread over the shards, byte by byte.
pub proof fn law_shards(key: Seq<u8>, b: u8)
    ensures
        fnv1a(Seq::empty()) == 0xcbf2_9ce4_8422_2325,
        fnv1a(key.push(b)) == (fnv1a(key) ^ (b as u64)).wrapping_mul(0x0000_0100_0000_01b3),
        key_shard(key) == fnv1a(key) as int % 256,
{
    assert(key.push(b).drop_last() =~= key);
}

/// A repository and a commit stand for a revision just where the graph has the origin of the
/// repository's URL, the revision is the winner among the candidates for its snapshots, and it
/// has a root directory.
///
/// Where all commits are full hashes, the candidate is the revision with this SWHID; else the
/// candidates are all revisions whose hash starts with the digits of the commit.
pub proof fn law_key_rev(
    g: GraphModel,
    full: bool,
    nibbles: nat,
    repo: Seq<char>,
    commit: Seq<char>,
    cands: Set<usize>,
)
    requires
        full ==> forall|n: usize| #[trigger]
            cands.contains(n) <==> (g.node_id)(full_rev_id(commit)) == Some(n),
        !full ==> forall|n: usize| #[trigger]
            cands.contains(n) <==> rev_nodes(
                g,
                nibbles,
                commit_key(commit, nibbles),
                0,
                g.num_nodes as int,
            ).contains(n),
    ensures
        ({
            let r = key_rev(g, full, nibbles, (repo, commit));
            match (g.node_id)(origin_swhid(github_url(repo))) {
                None => r is None,
                Some(o) => match winner(g, snapshots(g, o), cands) {
                    None => r is None,
                    Some(w) => r == (if root_dir(g, w) is Some {
                        Some(w)
                    } else {
                        None
                    }),
                },
            }
        }),
{
    if full {
        let found = full_hash_nodes(g, commit);
        assert(found =~= cands);
    } else {
        let found = rev_nodes(g, nibbles, commit_key(commit, nibbles), 0, g.num_nodes as int);
        assert(found.to_set() =~= cands);
    }
}

/// Every resolved row is a row of the input as it stands there, with the SWHID of the revision
/// that its repository and commit stand for, and with the URL of its repository.
pub proof fn law_resolved_row(
    g: GraphModel,
    inp: Input,
    nibbles: nat,
    out: Seq<Vec<OutRow>>,
    a: int,
    b: int,
)
    requires
        is_resolved(g, inp, nibbles, out),
        inp.repo@.len() <= usize::MAX,
        0 <= a < out.len(),
        0 <= b < out[a]@.len(),
    ensures
        exists|i: int| is_row_of(g, inp, nibbles, #[trigger] inp.repo@[i]@, i, out[a]@[b]),
{
    let order = choose|order: Seq<GroupKey>| resolved_in(g, inp, nibbles, order, out);
    let key = order[a];
    assert(order.contains(key));
    assert(rows_view(out[a]@) == key_rows(g, inp, nibbles, key));
    let row = out[a]@[b];
    assert(rows_view(out[a]@)[b] == row@);
    let i = inp.group(key)[b] as int;
    lemma_group_row(inp, key, inp.repo@.len() as int, b);
    assert(row@ == row_text(
        inp,
        i,
        (g.swhid)(key_rev(g, all_full(inp.commit_id@), nibbles, key)->0),
        github_url(key.0),
    ));
    assert(key_resolves(g, inp, nibbles, key));
    assert(is_row_of(g, inp, nibbles, inp.repo@[i]@, i, row));
}

/// `row` is row `i` of the input, whose repository is `repo`, resolved.
pub open spec fn is_row_of(
    g: GraphModel,
    inp: Input,
    nibbles: nat,
    repo: Seq<char>,
    i: int,
    row: OutRow,
) -> bool {
    &&& 0 <= i < inp.repo@.len()
    &&& row.repo@ == repo
    &&& row.commit_id@ == inp.commit_id@[i]@
    &&& row.rel_path@ == inp.rel_path@[i]@
    &&& row.bin@ == inp.bin@[i]@
    &&& row.origin_url@ == github_url(repo)
    &&& key_rev(
        g,
        all_full(inp.commit_id@),
        nibbles,
        (repo, inp.commit_id@[i]@),
    ) matches Some(rev) && row.rev_swhid@ == (g.swhid)(rev)
}

proof fn lemma_group_row(inp: Input, key: GroupKey, n: int, b: int)
    requires
        0 <= n <= inp.repo@.len() <= usize::MAX,
        0 <= b < inp.rows_with(key, n).len(),
    ensures
        0 <= inp.rows_with(key, n)[b] < n,
        inp.key(inp.rows_with(key, n)[b] as int) == key,
    decreases n,
{
    if n > 0 {
        let before = inp.rows_with(key, n - 1);
        if b < before.len() {
            lemma_group_row(inp, key, n - 1, b);
        }
    }
}

/// The rows of a repository and a commit keep their order.
pub proof fn law_group_keeps_order(inp: Input, key: GroupKey, a: int, b: int)
    requires
        inp.repo@.len() <= usize::MAX,
        0 <= a < b < inp.group(key).len(),
    ensures
        inp.group(key)[a] < inp.group(key)[b] < inp.repo@.len(),
{
    lemma_group_ascends(inp, key, inp.repo@.len() as int, a, b);
}

proof fn lemma_group_ascends(inp: Input, key: GroupKey, n: int, a: int, b: int)
    requires
        0 <= n <= inp.repo@.len() <= usize::MAX,
        0 <= a < b < inp.rows_with(key, n).len(),
    ensures
        inp.rows_with(key, n)[a] < inp.rows_with(key, n)[b] < n,
    decreases n,
{
    if n > 0 {
        let before = inp.rows_with(key, n - 1);
        if b < before.len() {
            lemma_group_ascends(inp, key, n - 1, a, b);
        } else {
            lemma_group_row(inp, key, n - 1, a);
        }
    }
}

} // verus!
