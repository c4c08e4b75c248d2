//! Which revision of several candidates belongs to an origin.

use std::collections::{HashSet, VecDeque};

use vstd::prelude::*;

use crate::ntf::graph::{
    bidirectional_is, directories_within, graph_is, BackwardGraph, Graph, GraphModel, NodeType,
};
use crate::ntf::order::{is_text_less, lemma_text_total, lemma_text_transitive, text_less};
use crate::ntf::sorted::ascends;

verus! {

/// The snapshots among `nodes`.
pub open spec fn snapshots_in(g: GraphModel, nodes: Seq<usize>) -> Set<usize> {
    Set::new(|n: usize| nodes.contains(n) && (g.node_type)(n) == NodeType::Snapshot)
}

/// The snapshots of an origin.
pub open spec fn snapshots(g: GraphModel, origin: usize) -> Set<usize> {
    snapshots_in(g, (g.succ)(origin))
}

/// The snapshots among `nodes`, in their order.
pub open spec fn snapshot_list(g: GraphModel, nodes: Seq<usize>) -> Seq<usize> {
    nodes.filter(|n: usize| (g.node_type)(n) == NodeType::Snapshot)
}

/// The snapshots of an origin: the successors that are snapshots, in their order, and as a
/// set.
pub fn build_snapshot_set<G: Graph>(graph: &G, origin: usize) -> (r: (Vec<usize>, HashSet<usize>))
    ensures
        r.0@.to_set() == r.1@,
        forall|g: GraphModel| #[trigger]
            graph_is(graph, g) ==> r.0@ == snapshot_list(g, (g.succ)(origin)) && r.1@ == snapshots(
                g,
                origin,
            ),
{
    broadcast use vstd::std_specs::hash::group_hash_axioms;

    let succs = graph.successors(origin);
    let mut list: Vec<usize> = Vec::new();
    let mut set: HashSet<usize> = HashSet::new();
    assert(list@.to_set() =~= set@);
    assert forall|g: GraphModel| #[trigger] graph_is(graph, g) implies list@ == snapshot_list(
        g,
        succs@.take(0),
    ) && set@ == snapshots_in(g, succs@.take(0)) by {
        reveal(Seq::filter);
        assert(set@ =~= snapshots_in(g, succs@.take(0)));
    }
    let mut i: usize = 0;
    while i < succs.len()
        invariant
            i <= succs@.len(),
            list@.to_set() == set@,
            forall|g: GraphModel| #[trigger]
                graph_is(graph, g) ==> list@ == snapshot_list(g, succs@.take(i as int)) && set@
                    == snapshots_in(g, succs@.take(i as int)),
        decreases succs@.len() - i,
    {
        broadcast use vstd::std_specs::hash::group_hash_axioms;

        let n: usize = succs[i];
        let ghost before = list@;
        let ghost set0 = set@;
        let t = graph.node_type(n);
        if t == NodeType::Snapshot {
            list.push(n);
            set.insert(n);
            assert(list@.to_set() =~= before.to_set().insert(n)) by {
                assert(list@[before.len() as int] == n);
                assert forall|m: usize| before.contains(m) implies list@.contains(m) by {
                    let k = choose|k: int| 0 <= k < before.len() && before[k] == m;
                    assert(list@[k] == m);
                }
            }
        }
        assert forall|g: GraphModel| #[trigger] graph_is(graph, g) implies list@ == snapshot_list(
            g,
            succs@.take(i + 1),
        ) && set@ == snapshots_in(g, succs@.take(i + 1)) by {
            assert(before == snapshot_list(g, succs@.take(i as int)));
            assert(set0 == snapshots_in(g, succs@.take(i as int)));
            lemma_snapshots_push(g, succs@, i as int);
        }
        i = i + 1;
    }
    assert(succs@.take(i as int) =~= succs@);
    (list, set)
}

proof fn lemma_snapshots_push(g: GraphModel, nodes: Seq<usize>, i: int)
    requires
        0 <= i < nodes.len(),
    ensures
        snapshots_in(g, nodes.take(i + 1)) == (if (g.node_type)(nodes[i]) == NodeType::Snapshot {
            snapshots_in(g, nodes.take(i)).insert(nodes[i])
        } else {
            snapshots_in(g, nodes.take(i))
        }),
        snapshot_list(g, nodes.take(i + 1)) == (if (g.node_type)(nodes[i]) == NodeType::Snapshot {
            snapshot_list(g, nodes.take(i)).push(nodes[i])
        } else {
            snapshot_list(g, nodes.take(i))
        }),
{
    reveal(Seq::filter);
    let before = nodes.take(i);
    let after = nodes.take(i + 1);
    assert(after.drop_last() =~= before);
    assert forall|n: usize| after.contains(n) <==> before.contains(n) || n == nodes[i] by {
        if before.contains(n) {
            let k = choose|k: int| 0 <= k < before.len() && before[k] == n;
            assert(after[k] == n);
        }
        if n == nodes[i] {
            assert(after[i] == n);
        }
        if after.contains(n) {
            let k = choose|k: int| 0 <= k < after.len() && after[k] == n;
            if k < i {
                assert(before[k] == n);
            }
        }
    }
    assert(snapshots_in(g, after) =~= (if (g.node_type)(nodes[i]) == NodeType::Snapshot {
        snapshots_in(g, before).insert(nodes[i])
    } else {
        snapshots_in(g, before)
    }));
}

/// `node` is reached from `rev` by `steps` arcs, each taken backwards.
pub open spec fn back_in(g: GraphModel, rev: usize, node: usize, steps: nat) -> bool
    decreases steps,
{
    if steps == 0 {
        node == rev
    } else {
        exists|m: usize| #[trigger]
            (g.pred)(m).contains(node) && back_in(g, rev, m, (steps - 1) as nat)
    }
}

/// One more arc.
pub proof fn lemma_back_step(g: GraphModel, rev: usize, m: usize, node: usize, steps: nat)
    requires
        back_in(g, rev, m, steps),
        (g.pred)(m).contains(node),
    ensures
        back_in(g, rev, node, steps + 1),
{
    assert((g.pred)(m).contains(node) && back_in(g, rev, m, ((steps + 1) - 1) as nat));
}

/// The last arc.
pub proof fn lemma_back_last(g: GraphModel, rev: usize, node: usize, steps: nat) -> (m: usize)
    requires
        back_in(g, rev, node, steps),
        steps > 0,
    ensures
        back_in(g, rev, m, (steps - 1) as nat),
        (g.pred)(m).contains(node),
{
    choose|m: usize| #[trigger]
        (g.pred)(m).contains(node) && back_in(g, rev, m, (steps - 1) as nat)
}

/// Whether `node` is a snapshot in `snaps`.
pub open spec fn is_hit(g: GraphModel, snaps: Set<usize>, node: usize) -> bool {
    (g.node_type)(node) == NodeType::Snapshot && snaps.contains(node)
}

/// Whether a walk backwards from `rev` comes to a snapshot in `snaps`.
pub open spec fn comes_from(g: GraphModel, snaps: Set<usize>, rev: usize) -> bool {
    exists|node: usize, steps: nat| #[trigger]
        back_in(g, rev, node, steps) && steps > 0 && is_hit(g, snaps, node)
}

/// Every predecessor of `node` is in `seen`, and none is a hit.
spec fn settled(g: GraphModel, snaps: Set<usize>, seen: Set<usize>, node: usize, upto: int) -> bool {
    forall|j: int|
        0 <= j < upto && j < (g.pred)(node).len() ==> seen.contains(#[trigger] (g.pred)(node)[j])
            && !is_hit(g, snaps, (g.pred)(node)[j])
}

/// All that was seen is reached from `rev`, and all of it is settled but what is queued and
/// `open_node`.
spec fn search_inv(
    g: GraphModel,
    snaps: Set<usize>,
    rev: usize,
    seen: Set<usize>,
    queue: Seq<usize>,
    open_node: Option<usize>,
) -> bool {
    &&& seen.contains(rev)
    &&& forall|n: usize| #[trigger] seen.contains(n) ==> exists|steps: nat| back_in(g, rev, n, steps)
    &&& forall|i: int| 0 <= i < queue.len() ==> seen.contains(#[trigger] queue[i])
    &&& forall|n: usize| #[trigger]
        seen.contains(n) && !queue.contains(n) && open_node != Some(n) ==> settled(
            g,
            snaps,
            seen,
            n,
            (g.pred)(n).len() as int,
        )
}

/// Where all that was seen is settled, whatever is reached from `rev` was seen, and none of
/// it is a hit.
proof fn lemma_search_done(
    g: GraphModel,
    snaps: Set<usize>,
    rev: usize,
    seen: Set<usize>,
    node: usize,
    steps: nat,
)
    requires
        search_inv(g, snaps, rev, seen, Seq::empty(), None),
        back_in(g, rev, node, steps),
    ensures
        seen.contains(node),
        steps > 0 ==> !is_hit(g, snaps, node),
    decreases steps,
{
    if steps > 0 {
        let m = lemma_back_last(g, rev, node, steps);
        lemma_search_done(g, snaps, rev, seen, m, (steps - 1) as nat);
        assert(settled(g, snaps, seen, m, (g.pred)(m).len() as int));
        let preds = (g.pred)(m);
        let j = choose|j: int| 0 <= j < preds.len() && preds[j] == node;
        assert(seen.contains((g.pred)(m)[j]));
    }
}

/// Looking at predecessor `j` of `n`.
proof fn lemma_search_step(
    g: GraphModel,
    snaps: Set<usize>,
    rev: usize,
    seen: Set<usize>,
    queue: Seq<usize>,
    n: usize,
    j: int,
)
    requires
        search_inv(g, snaps, rev, seen, queue, Some(n)),
        seen.contains(n),
        settled(g, snaps, seen, n, j),
        0 <= j < (g.pred)(n).len(),
        !is_hit(g, snaps, (g.pred)(n)[j]),
    ensures
        ({
            let p = (g.pred)(n)[j];
            let queue2 = if seen.contains(p) {
                queue
            } else {
                queue.push(p)
            };
            &&& search_inv(g, snaps, rev, seen.insert(p), queue2, Some(n))
            &&& settled(g, snaps, seen.insert(p), n, j + 1)
        }),
{
    let p = (g.pred)(n)[j];
    let seen2 = seen.insert(p);
    let queue2 = if seen.contains(p) {
        queue
    } else {
        queue.push(p)
    };
    let steps = choose|steps: nat| back_in(g, rev, n, steps);
    assert((g.pred)(n).contains(p));
    lemma_back_step(g, rev, n, p, steps);
    assert forall|m: usize| #[trigger]
        seen2.contains(m) && !queue2.contains(m) && Some(n) != Some(m) implies settled(
        g,
        snaps,
        seen2,
        m,
        (g.pred)(m).len() as int,
    ) by {
        if !seen.contains(p) {
            assert(queue2[queue.len() as int] == p);
            assert(m != p);
            if queue.contains(m) {
                let k = choose|k: int| 0 <= k < queue.len() && queue[k] == m;
                assert(queue2[k] == m);
            }
        }
        assert(seen.contains(m));
        assert(settled(g, snaps, seen, m, (g.pred)(m).len() as int));
    }
    assert forall|i: int| 0 <= i < queue2.len() implies seen2.contains(#[trigger] queue2[i]) by {
        if i < queue.len() {
            assert(queue2[i] == queue[i]);
        }
    }
}

/// Walks backwards from `rev`, breadth first, until a snapshot in `snapshot_set` is found.
pub fn reaches_origin_snapshot<G: BackwardGraph>(
    graph: &G,
    rev: usize,
    snapshot_set: &HashSet<usize>,
) -> (r: bool)
    ensures
        forall|g: GraphModel| #[trigger]
            bidirectional_is(graph, g) ==> r == comes_from(g, snapshot_set@, rev),
{
    broadcast use vstd::std_specs::hash::group_hash_axioms;

    let mut queue: VecDeque<usize> = VecDeque::new();
    let mut seen: HashSet<usize> = HashSet::new();
    queue.push_back(rev);
    seen.insert(rev);
    assert forall|g: GraphModel| #[trigger] bidirectional_is(graph, g) implies search_inv(
        g,
        snapshot_set@,
        rev,
        seen@,
        queue@,
        None,
    ) by {
        assert(back_in(g, rev, rev, 0));
        assert(queue@[0] == rev);
    }
    loop
        invariant
            seen@.finite(),
            seen@.len() <= usize::MAX,
            forall|g: GraphModel| #[trigger]
                bidirectional_is(graph, g) ==> search_inv(
                    g,
                    snapshot_set@,
                    rev,
                    seen@,
                    queue@,
                    None,
                ),
        ensures
            queue@.len() == 0,
        decreases usize::MAX - seen@.len(), queue@.len(),
    {
        broadcast use vstd::std_specs::hash::group_hash_axioms;

        let ghost queue0 = queue@;
        let ghost seen0 = seen@;
        let n: usize = match queue.pop_front() {
            Some(n) => n,
            None => {
                break ;
            },
        };
        let preds = graph.predecessors(n);
        assert forall|g: GraphModel| #[trigger] bidirectional_is(graph, g) implies search_inv(
            g,
            snapshot_set@,
            rev,
            seen@,
            queue@,
            Some(n),
        ) && seen@.contains(n) by {
            assert(search_inv(g, snapshot_set@, rev, seen0, queue0, None));
            assert(seen0.contains(queue0[0]));
            assert forall|m: usize| #[trigger]
                seen@.contains(m) && !queue@.contains(m) && Some(n) != Some(m) implies settled(
                g,
                snapshot_set@,
                seen@,
                m,
                (g.pred)(m).len() as int,
            ) by {
                if queue0.contains(m) {
                    let k = choose|k: int| 0 <= k < queue0.len() && queue0[k] == m;
                    assert(queue@[k - 1] == m);
                }
            }
            assert forall|i: int| 0 <= i < queue@.len() implies seen@.contains(
                #[trigger] queue@[i],
            ) by {
                assert(queue@[i] == queue0[i + 1]);
            }
        }
        let mut j: usize = 0;
        while j < preds.len()
            invariant
                j <= preds@.len(),
                seen@.finite(),
                seen@.len() <= usize::MAX,
                seen0.len() <= seen@.len(),
                seen@.len() == seen0.len() ==> queue@.len() < queue0.len(),
                forall|g: GraphModel| #[trigger]
                    bidirectional_is(graph, g) ==> {
                        &&& preds@ == (g.pred)(n)
                        &&& seen@.contains(n)
                        &&& search_inv(g, snapshot_set@, rev, seen@, queue@, Some(n))
                        &&& settled(g, snapshot_set@, seen@, n, j as int)
                    },
            decreases preds@.len() - j,
        {
            broadcast use vstd::std_specs::hash::group_hash_axioms;

            let p: usize = preds[j];
            if graph.node_type(p) == NodeType::Snapshot && snapshot_set.contains(&p) {
                assert forall|g: GraphModel| #[trigger]
                    bidirectional_is(graph, g) implies comes_from(g, snapshot_set@, rev) by {
                    let steps = choose|steps: nat| back_in(g, rev, n, steps);
                    assert((g.pred)(n)[j as int] == p);
                    lemma_back_step(g, rev, n, p, steps);
                    assert(is_hit(g, snapshot_set@, p));
                }
                return true;
            }
            let ghost seen1 = seen@;
            let ghost queue1 = queue@;
            assert forall|g: GraphModel| #[trigger] bidirectional_is(graph, g) implies {
                let queue2 = if seen1.contains(p) {
                    queue1
                } else {
                    queue1.push(p)
                };
                &&& search_inv(g, snapshot_set@, rev, seen1.insert(p), queue2, Some(n))
                &&& settled(g, snapshot_set@, seen1.insert(p), n, j + 1)
            } by {
                lemma_search_step(g, snapshot_set@, rev, seen1, queue1, n, j as int);
            }
            if seen.insert(p) {
                queue.push_back(p);
            }
            let n_seen: usize = seen.len();
            assert(seen1.contains(p) ==> seen1.insert(p) =~= seen1);
            j = j + 1;
        }
        assert forall|g: GraphModel| #[trigger] bidirectional_is(graph, g) implies search_inv(
            g,
            snapshot_set@,
            rev,
            seen@,
            queue@,
            None,
        ) by {
            assert(search_inv(g, snapshot_set@, rev, seen@, queue@, Some(n)));
            assert(settled(g, snapshot_set@, seen@, n, (g.pred)(n).len() as int));
        }
    }
    assert forall|g: GraphModel| #[trigger] bidirectional_is(graph, g) implies !comes_from(
        g,
        snapshot_set@,
        rev,
    ) by {
        assert(queue@ =~= Seq::<usize>::empty());
        assert forall|node: usize, steps: nat| #[trigger]
            back_in(g, rev, node, steps) && steps > 0 implies !is_hit(g, snapshot_set@, node) by {
            lemma_search_done(g, snapshot_set@, rev, seen@, node, steps);
        }
    }
    false
}

/// Whether a branch to `target` leads to `rev`, directly or through a release.
pub open spec fn leads_to(g: GraphModel, target: usize, rev: usize) -> bool {
    match (g.node_type)(target) {
        NodeType::Revision => target == rev,
        NodeType::Release => (g.node_type)(rev) == NodeType::Revision && (g.succ)(target).contains(
            rev,
        ),
        _ => false,
    }
}

/// Whether `rev` is a branch head of `snapshot`.
pub open spec fn is_head(g: GraphModel, snapshot: usize, rev: usize) -> bool {
    exists|i: int|
        0 <= i < (g.succ)(snapshot).len() && leads_to(g, #[trigger] (g.succ)(snapshot)[i], rev)
}

/// Whether `node` is a revision and equal to `rev`, among the successors of a release.
fn release_leads_to<G: Graph>(graph: &G, release: usize, rev: usize) -> (r: bool)
    ensures
        forall|g: GraphModel| #[trigger]
            graph_is(graph, g) ==> r == ((g.node_type)(rev) == NodeType::Revision && (g.succ)(
                release,
            ).contains(rev)),
{
    let succs = graph.successors(release);
    let mut j: usize = 0;
    while j < succs.len()
        invariant
            j <= succs@.len(),
            forall|g: GraphModel| #[trigger]
                graph_is(graph, g) ==> succs@ == (g.succ)(release) && ((g.node_type)(rev)
                    == NodeType::Revision ==> forall|k: int| 0 <= k < j ==> succs@[k] != rev),
        decreases succs@.len() - j,
    {
        let r: usize = succs[j];
        if graph.node_type(r) == NodeType::Revision && r == rev {
            assert(succs@.contains(rev));
            return true;
        }
        j = j + 1;
    }
    false
}

/// Whether `rev` is a branch head of `snapshot`.
pub fn is_branch_head<G: Graph>(graph: &G, snapshot: usize, rev: usize) -> (r: bool)
    ensures
        forall|g: GraphModel| #[trigger] graph_is(graph, g) ==> r == is_head(g, snapshot, rev),
{
    let succs = graph.successors(snapshot);
    let mut i: usize = 0;
    while i < succs.len()
        invariant
            i <= succs@.len(),
            forall|g: GraphModel| #[trigger]
                graph_is(graph, g) ==> succs@ == (g.succ)(snapshot) && forall|k: int|
                    0 <= k < i ==> !leads_to(g, #[trigger] (g.succ)(snapshot)[k], rev),
        decreases succs@.len() - i,
    {
        let target: usize = succs[i];
        let leads: bool = match graph.node_type(target) {
            NodeType::Revision => target == rev,
            NodeType::Release => release_leads_to(graph, target, rev),
            _ => false,
        };
        assert forall|g: GraphModel| #[trigger] graph_is(graph, g) implies leads == leads_to(
            g,
            (g.succ)(snapshot)[i as int],
            rev,
        ) by {}
        if leads {
            return true;
        }
        i = i + 1;
    }
    false
}

/// Whether `rev` is a branch head of one of the snapshots.
pub open spec fn is_head_of_any(g: GraphModel, snaps: Set<usize>, rev: usize) -> bool {
    exists|s: usize| #[trigger] snaps.contains(s) && is_head(g, s, rev)
}

/// Whether `rev` is a branch head of one of the snapshots.
fn heads_any<G: Graph>(graph: &G, snaps: &Vec<usize>, rev: usize) -> (r: bool)
    ensures
        forall|g: GraphModel| #[trigger]
            graph_is(graph, g) ==> r == is_head_of_any(g, snaps@.to_set(), rev),
{
    let mut i: usize = 0;
    while i < snaps.len()
        invariant
            i <= snaps@.len(),
            forall|g: GraphModel| #[trigger]
                graph_is(graph, g) ==> forall|k: int|
                    0 <= k < i ==> !is_head(g, #[trigger] snaps@[k], rev),
        decreases snaps@.len() - i,
    {
        if is_branch_head(graph, snaps[i], rev) {
            assert(snaps@.to_set().contains(snaps@[i as int]));
            return true;
        }
        i = i + 1;
    }
    false
}

/// The first directory among `nodes`.
pub open spec fn first_directory(g: GraphModel, nodes: Seq<usize>) -> Option<usize>
    decreases nodes.len(),
{
    if nodes.len() == 0 {
        None
    } else if (g.node_type)(nodes[0]) == NodeType::Directory {
        Some(nodes[0])
    } else {
        first_directory(g, nodes.drop_first())
    }
}

/// The root directory of a revision: its first successor that is a directory.
pub open spec fn root_dir(g: GraphModel, rev: usize) -> Option<usize> {
    first_directory(g, (g.succ)(rev))
}

/// The root directory of a revision.
pub fn root_dir_of_rev<G: Graph>(graph: &G, rev: usize) -> (r: Option<usize>)
    ensures
        forall|g: GraphModel| #[trigger] graph_is(graph, g) ==> r == root_dir(g, rev),
        forall|b: nat| #[trigger] directories_within(graph, b) && r is Some ==> r->0 < b,
{
    let succs = graph.successors(rev);
    let mut i: usize = 0;
    assert(succs@.skip(0) =~= succs@);
    while i < succs.len()
        invariant
            i <= succs@.len(),
            call_ensures(G::successors, (graph, rev), succs),
            forall|g: GraphModel| #[trigger]
                graph_is(graph, g) ==> root_dir(g, rev) == first_directory(
                    g,
                    succs@.skip(i as int),
                ),
        decreases succs@.len() - i,
    {
        let n: usize = succs[i];
        if graph.node_type(n) == NodeType::Directory {
            return Some(n);
        }
        assert(succs@.skip(i as int).drop_first() =~= succs@.skip(i + 1));
        i = i + 1;
    }
    None
}

/// The candidates that come from one of the snapshots.
pub open spec fn passing(g: GraphModel, snaps: Set<usize>, cands: Set<usize>) -> Set<usize> {
    cands.filter(|rev: usize| comes_from(g, snaps, rev))
}

/// The candidates among which the winner is chosen: those that come from one of the
/// snapshots, and of these only the branch heads, if there are any.
pub open spec fn pool(g: GraphModel, snaps: Set<usize>, cands: Set<usize>) -> Set<usize> {
    let pass = passing(g, snaps, cands);
    let heads = pass.filter(|rev: usize| is_head_of_any(g, snaps, rev));
    if heads.is_empty() {
        pass
    } else {
        heads
    }
}

/// No other node of `set` has a SWHID that comes after that of `w`, and none with the same
/// SWHID has a greater id.
pub open spec fn is_greatest(g: GraphModel, set: Set<usize>, w: usize) -> bool {
    &&& set.contains(w)
    &&& forall|o: usize| #[trigger]
        set.contains(o) ==> !text_less((g.swhid)(w), (g.swhid)(o)) && ((g.swhid)(o) == (g.swhid)(w)
            ==> o <= w)
}

/// There is only one greatest node.
pub proof fn lemma_greatest_unique(g: GraphModel, set: Set<usize>, a: usize, b: usize)
    requires
        is_greatest(g, set, a),
        is_greatest(g, set, b),
    ensures
        a == b,
{
    lemma_text_total((g.swhid)(a), (g.swhid)(b));
}

/// The winner among the candidates, if any comes from one of the snapshots.
pub open spec fn winner(g: GraphModel, snaps: Set<usize>, cands: Set<usize>) -> Option<usize> {
    if pool(g, snaps, cands).is_empty() {
        None
    } else {
        Some(choose|w: usize| is_greatest(g, pool(g, snaps, cands), w))
    }
}

/// The greatest of the nodes, which ascend.
fn greatest<G: Graph>(graph: &G, nodes: &Vec<usize>) -> (r: usize)
    requires
        nodes@.len() > 0,
        ascends(nodes@),
    ensures
        forall|g: GraphModel| #[trigger] graph_is(graph, g) ==> is_greatest(g, nodes@.to_set(), r),
{
    let mut w: usize = nodes[0];
    let mut i: usize = 1;
    assert forall|g: GraphModel| #[trigger] graph_is(graph, g) implies is_greatest(
        g,
        nodes@.take(1).to_set(),
        w,
    ) by {
        assert(nodes@.take(1)[0] == w);
        lemma_text_total((g.swhid)(w), (g.swhid)(w));
    }
    while i < nodes.len()
        invariant
            1 <= i <= nodes@.len(),
            ascends(nodes@),
            forall|g: GraphModel| #[trigger]
                graph_is(graph, g) ==> is_greatest(g, nodes@.take(i as int).to_set(), w),
        decreases nodes@.len() - i,
    {
        let c: usize = nodes[i];
        let hw = graph.swhid(w);
        let hc = graph.swhid(c);
        let less: bool = is_text_less(hc.as_str(), hw.as_str());
        assert forall|g: GraphModel| #[trigger] graph_is(graph, g) implies is_greatest(
            g,
            nodes@.take(i + 1).to_set(),
            if less {
                w
            } else {
                c
            },
        ) by {
            let before = nodes@.take(i as int);
            let after = nodes@.take(i + 1);
            assert(is_greatest(g, before.to_set(), w));
            assert(after[i as int] == c);
            let k = choose|k: int| 0 <= k < before.len() && before[k] == w;
            assert(after[k] == w);
            assert forall|o: usize| #[trigger] after.to_set().contains(o) implies before.to_set().contains(
                o,
            ) && o < c || o == c by {
                let k = choose|k: int| 0 <= k < after.len() && after[k] == o;
                if k < i {
                    assert(before[k] == o);
                    assert(nodes@[k] < nodes@[i as int]);
                }
            }
            lemma_text_total((g.swhid)(c), (g.swhid)(c));
            lemma_text_total((g.swhid)(c), (g.swhid)(w));
            assert forall|o: usize| before.to_set().contains(o) && !less implies !#[trigger] text_less(
                (g.swhid)(c),
                (g.swhid)(o),
            ) by {
                lemma_text_transitive((g.swhid)(o), (g.swhid)(w), (g.swhid)(c));
            }
        }
        if !less {
            w = c;
        }
        i = i + 1;
    }
    assert(nodes@.take(i as int) =~= nodes@);
    w
}

/// The winner among the candidates.
pub fn select_winner<G: BackwardGraph>(
    graph: &G,
    snapshot_list: &Vec<usize>,
    snapshot_set: &HashSet<usize>,
    cands: &Vec<usize>,
) -> (r: Option<usize>)
    requires
        snapshot_list@.to_set() == snapshot_set@,
        ascends(cands@),
    ensures
        forall|g: GraphModel| #[trigger]
            bidirectional_is(graph, g) ==> r == winner(g, snapshot_set@, cands@.to_set()),
{
    let mut pass: Vec<usize> = Vec::new();
    let mut heads: Vec<usize> = Vec::new();
    let mut i: usize = 0;
    while i < cands.len()
        invariant
            i <= cands@.len(),
            snapshot_list@.to_set() == snapshot_set@,
            ascends(cands@),
            ascends(pass@),
            ascends(heads@),
            forall|k: int| 0 <= k < pass@.len() ==> cands@.take(i as int).contains(#[trigger] pass@[k]),
            forall|k: int| 0 <= k < heads@.len() ==> cands@.take(i as int).contains(#[trigger] heads@[k]),
            forall|g: GraphModel| #[trigger]
                bidirectional_is(graph, g) ==> {
                    &&& forall|n: usize|
                        pass@.contains(n) <==> #[trigger] cands@.take(i as int).contains(n)
                            && comes_from(g, snapshot_set@, n)
                    &&& forall|n: usize|
                        heads@.contains(n) <==> #[trigger] cands@.take(i as int).contains(n)
                            && comes_from(g, snapshot_set@, n) && is_head_of_any(
                            g,
                            snapshot_set@,
                            n,
                        )
                },
        decreases cands@.len() - i,
    {
        let rev: usize = cands[i];
        let ghost pass0 = pass@;
        let ghost heads0 = heads@;
        let from: bool = reaches_origin_snapshot(graph, rev, snapshot_set);
        let mut head: bool = false;
        proof {
            let before = cands@.take(i as int);
            let after = cands@.take(i + 1);
            assert(after =~= before.push(rev));
            assert forall|n: usize| #[trigger] after.contains(n) <==> before.contains(n) || n
                == rev by {
                lemma_push_contains(before, rev, n);
            }
            assert forall|n: usize| before.contains(n) implies n < rev by {
                let k = choose|k: int| 0 <= k < before.len() && before[k] == n;
                assert(cands@[k] < cands@[i as int]);
            }
        }
        if from {
            pass.push(rev);
            head = heads_any(graph, snapshot_list, rev);
            if head {
                heads.push(rev);
            }
        }
        proof {
            assert forall|n: usize| #[trigger] pass@.contains(n) <==> pass0.contains(n) || (from
                && n == rev) by {
                lemma_push_contains(pass0, rev, n);
            }
            assert forall|n: usize| #[trigger] heads@.contains(n) <==> heads0.contains(n) || (head
                && n == rev) by {
                lemma_push_contains(heads0, rev, n);
            }
        }
        i = i + 1;
    }
    assert(cands@.take(i as int) =~= cands@);
    let use_heads: bool = heads.len() > 0;
    let chosen: &Vec<usize> = if use_heads {
        &heads
    } else {
        &pass
    };
    assert forall|g: GraphModel| #[trigger] bidirectional_is(graph, g) implies chosen@.to_set()
        == pool(g, snapshot_set@, cands@.to_set()) by {
        let pass_set = passing(g, snapshot_set@, cands@.to_set());
        let head_set = pass_set.filter(|rev: usize| is_head_of_any(g, snapshot_set@, rev));
        assert(pass@.to_set() =~= pass_set) by {
            assert forall|n: usize| pass@.contains(n) <==> pass_set.contains(n) by {
                assert(cands@.to_set().contains(n) <==> cands@.contains(n));
            }
        }
        assert(heads@.to_set() =~= head_set) by {
            assert forall|n: usize| heads@.contains(n) <==> head_set.contains(n) by {
                assert(cands@.to_set().contains(n) <==> cands@.contains(n));
            }
        }
        if use_heads {
            assert(head_set.contains(heads@[0]));
        } else {
            assert(head_set =~= Set::empty());
        }
    }
    if chosen.len() == 0 {
        assert(chosen@.to_set() =~= Set::<usize>::empty());
        return None;
    }
    let w: usize = greatest(graph, chosen);
    assert forall|g: GraphModel| #[trigger] bidirectional_is(graph, g) implies Some(w) == winner(
        g,
        snapshot_set@,
        cands@.to_set(),
    ) by {
        let set = pool(g, snapshot_set@, cands@.to_set());
        assert(graph_is(graph, g));
        assert(is_greatest(g, set, w));
        let o = choose|o: usize| is_greatest(g, set, o);
        lemma_greatest_unique(g, set, w, o);
    }
    Some(w)
}

proof fn lemma_push_contains(s: Seq<usize>, x: usize, n: usize)
    ensures
        s.push(x).contains(n) <==> s.contains(n) || n == x,
{
    let after = s.push(x);
    if s.contains(n) {
        let k = choose|k: int| 0 <= k < s.len() && s[k] == n;
        assert(after[k] == n);
    }
    assert(after[s.len() as int] == x);
    if after.contains(n) {
        let k = choose|k: int| 0 <= k < after.len() && after[k] == n;
        if k < s.len() {
            assert(s[k] == n);
        }
    }
}

} // verus!
