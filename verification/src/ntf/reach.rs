//! Which directories are reached from the root directories, over arcs between directories.
//!
//! No label is read here.

use vstd::prelude::*;

use crate::ntf::common::{rounded_to_words, NodeBitset, N_NODES};
use crate::ntf::graph::{directories_within, graph_is, Graph, GraphModel, NodeType};

verus! {

/// `node` is reached in `steps` steps from a root, each step to a directory, and never
/// through a node that was marked before.
pub open spec fn reached_in(
    g: GraphModel,
    roots: Set<usize>,
    marked: Set<int>,
    node: usize,
    steps: nat,
) -> bool
    decreases steps,
{
    !marked.contains(node as int) && if steps == 0 {
        roots.contains(node)
    } else {
        (g.node_type)(node) == NodeType::Directory && exists|m: usize| #[trigger]
            (g.succ)(m).contains(node) && reached_in(g, roots, marked, m, (steps - 1) as nat)
    }
}

/// `node` is reached from a root.
pub open spec fn is_reached(g: GraphModel, roots: Set<usize>, marked: Set<int>, node: usize) -> bool {
    exists|steps: nat| reached_in(g, roots, marked, node, steps)
}

/// What is marked in the end: what was marked before, and what is reached from the roots.
pub open spec fn reach(g: GraphModel, roots: Set<usize>, marked: Set<int>) -> Set<int> {
    Set::new(
        |n: int|
            marked.contains(n) || (0 <= n <= usize::MAX && is_reached(g, roots, marked, n as usize)),
    )
}

/// The directories among the first `upto` successors of `node` are marked.
spec fn expanded(g: GraphModel, now: Set<int>, node: usize, upto: int) -> bool {
    forall|j: int|
        0 <= j < upto && j < (g.succ)(node).len() && (g.node_type)(
            #[trigger] (g.succ)(node)[j],
        ) == NodeType::Directory ==> now.contains((g.succ)(node)[j] as int)
}

/// `now` holds what was marked before, some of what is reached from the roots, and all of it
/// is expanded but what is on the stack and `open_node`.
spec fn mark_inv(
    g: GraphModel,
    roots: Set<usize>,
    marked: Set<int>,
    now: Set<int>,
    stack: Seq<usize>,
    open_node: Option<usize>,
) -> bool {
    &&& forall|n: int| #[trigger] marked.contains(n) ==> now.contains(n)
    &&& forall|n: int| #[trigger]
        now.contains(n) ==> marked.contains(n) || (0 <= n <= usize::MAX && is_reached(
            g,
            roots,
            marked,
            n as usize,
        ))
    &&& forall|i: int|
        0 <= i < stack.len() ==> now.contains(#[trigger] stack[i] as int) && !marked.contains(
            stack[i] as int,
        )
    &&& forall|n: usize|
        now.contains(n as int) && !marked.contains(n as int) && !stack.contains(n) && open_node
            != Some(n) ==> #[trigger] expanded(g, now, n, (g.succ)(n).len() as int)
}

/// Marking successor `j` of `u`.
proof fn lemma_mark_step(
    g: GraphModel,
    roots: Set<usize>,
    marked: Set<int>,
    now: Set<int>,
    stack: Seq<usize>,
    u: usize,
    j: int,
)
    requires
        mark_inv(g, roots, marked, now, stack, Some(u)),
        now.contains(u as int),
        !marked.contains(u as int),
        expanded(g, now, u, j),
        0 <= j < (g.succ)(u).len(),
        (g.node_type)((g.succ)(u)[j]) == NodeType::Directory,
    ensures
        ({
            let v = (g.succ)(u)[j];
            let stack2 = if now.contains(v as int) {
                stack
            } else {
                stack.push(v)
            };
            &&& mark_inv(g, roots, marked, now.insert(v as int), stack2, Some(u))
            &&& expanded(g, now.insert(v as int), u, j + 1)
        }),
{
    let v = (g.succ)(u)[j];
    let now2 = now.insert(v as int);
    let stack2 = if now.contains(v as int) {
        stack
    } else {
        stack.push(v)
    };
    if !now.contains(v as int) {
        let steps = choose|steps: nat| reached_in(g, roots, marked, u, steps);
        assert((g.succ)(u).contains(v));
        assert(reached_in(g, roots, marked, v, steps + 1)) by {
            assert((g.succ)(u).contains(v) && reached_in(
                g,
                roots,
                marked,
                u,
                ((steps + 1) - 1) as nat,
            ));
        }
        assert(is_reached(g, roots, marked, v));
    }
    assert forall|n: usize|
        now2.contains(n as int) && !marked.contains(n as int) && !stack2.contains(n) && Some(u)
            != Some(n) implies #[trigger] expanded(g, now2, n, (g.succ)(n).len() as int) by {
        if !now.contains(v as int) {
            assert(stack2[stack.len() as int] == v);
            if stack.contains(n) {
                let k = choose|k: int| 0 <= k < stack.len() && stack[k] == n;
                assert(stack2[k] == n);
            }
        }
        assert(expanded(g, now, n, (g.succ)(n).len() as int));
    }
    assert forall|i: int| 0 <= i < stack2.len() implies now2.contains(#[trigger] stack2[i] as int)
        && !marked.contains(stack2[i] as int) by {
        if i < stack.len() {
            assert(stack2[i] == stack[i]);
        }
    }
}

/// Where all is expanded, and all roots up to the last are marked, all that is reached is
/// marked.
proof fn lemma_marked_all(
    g: GraphModel,
    roots: Set<usize>,
    marked: Set<int>,
    now: Set<int>,
    node: usize,
    steps: nat,
)
    requires
        mark_inv(g, roots, marked, now, Seq::empty(), None),
        forall|n: usize| #[trigger] roots.contains(n) ==> now.contains(n as int),
        reached_in(g, roots, marked, node, steps),
    ensures
        now.contains(node as int),
    decreases steps,
{
    if steps > 0 {
        let m = choose|m: usize| #[trigger]
            (g.succ)(m).contains(node) && reached_in(g, roots, marked, m, (steps - 1) as nat);
        lemma_marked_all(g, roots, marked, now, m, (steps - 1) as nat);
        assert(expanded(g, now, m, (g.succ)(m).len() as int));
        let succs = (g.succ)(m);
        let j = choose|j: int| 0 <= j < succs.len() && succs[j] == node;
        assert((g.succ)(m)[j] == node);
    }
}

/// Marks all that is reached from `root`.
fn mark_from<G: Graph>(
    graph: &G,
    root: usize,
    reached: &mut NodeBitset,
    Ghost(roots): Ghost<Set<usize>>,
    Ghost(marked): Ghost<Set<int>>,
)
    requires
        old(reached).wf(),
        root < old(reached).capacity(),
        directories_within(graph, old(reached).capacity()),
        roots.contains(root),
        forall|g: GraphModel| #[trigger]
            graph_is(graph, g) ==> mark_inv(g, roots, marked, old(reached)@, Seq::empty(), None),
    ensures
        final(reached).wf(),
        final(reached).spec_len() == old(reached).spec_len(),
        final(reached)@.contains(root as int),
        forall|n: int| #[trigger] old(reached)@.contains(n) ==> final(reached)@.contains(n),
        forall|g: GraphModel| #[trigger]
            graph_is(graph, g) ==> mark_inv(g, roots, marked, final(reached)@, Seq::empty(), None),
{
    let ghost before = reached@;
    if !reached.test_and_set(root) {
        assert(reached@ =~= before);
        return ;
    }
    let mut stack: Vec<usize> = Vec::new();
    stack.push(root);
    assert forall|g: GraphModel| #[trigger] graph_is(graph, g) implies mark_inv(
        g,
        roots,
        marked,
        reached@,
        stack@,
        None,
    ) by {
        assert(mark_inv(g, roots, marked, before, Seq::empty(), None));
        assert(!marked.contains(root as int));
        assert(reached_in(g, roots, marked, root, 0));
        assert(is_reached(g, roots, marked, root));
        assert(stack@[0] == root);
        assert forall|n: usize|
            reached@.contains(n as int) && !marked.contains(n as int) && !stack@.contains(n)
                && None::<usize> != Some(n) implies #[trigger] expanded(
            g,
            reached@,
            n,
            (g.succ)(n).len() as int,
        ) by {
            assert(before.contains(n as int));
            assert(expanded(g, before, n, (g.succ)(n).len() as int));
        }
    }
    loop
        invariant
            reached.wf(),
            reached.spec_len() == old(reached).spec_len(),
            directories_within(graph, reached.capacity()),
            reached@.contains(root as int),
            forall|n: int| #[trigger] old(reached)@.contains(n) ==> reached@.contains(n),
            forall|g: GraphModel| #[trigger]
                graph_is(graph, g) ==> mark_inv(g, roots, marked, reached@, stack@, None),
        ensures
            stack@.len() == 0,
        decreases reached.capacity() - reached@.len(), stack@.len(),
    {
        let ghost stack0 = stack@;
        let ghost now0 = reached@;
        let u: usize = match stack.pop() {
            Some(u) => u,
            None => {
                break ;
            },
        };
        let succs = graph.successors(u);
        proof {
            reached.lemma_bounded();
            assert(stack0 =~= stack@.push(u));
        }
        assert forall|g: GraphModel| #[trigger] graph_is(graph, g) implies mark_inv(
            g,
            roots,
            marked,
            reached@,
            stack@,
            Some(u),
        ) && reached@.contains(u as int) && !marked.contains(u as int) by {
            assert(mark_inv(g, roots, marked, now0, stack0, None));
            assert(stack0[stack0.len() - 1] == u);
            assert forall|n: usize|
                reached@.contains(n as int) && !marked.contains(n as int) && !stack@.contains(n)
                    && Some(u) != Some(n) implies #[trigger] expanded(
                g,
                reached@,
                n,
                (g.succ)(n).len() as int,
            ) by {
                if stack0.contains(n) {
                    let k = choose|k: int| 0 <= k < stack0.len() && stack0[k] == n;
                    assert(stack@[k] == n);
                }
            }
            assert forall|i: int| 0 <= i < stack@.len() implies reached@.contains(
                #[trigger] stack@[i] as int,
            ) && !marked.contains(stack@[i] as int) by {
                assert(stack@[i] == stack0[i]);
            }
        }
        let mut j: usize = 0;
        while j < succs.len()
            invariant
                j <= succs@.len(),
                call_ensures(G::successors, (graph, u), succs),
                reached.wf(),
                reached.spec_len() == old(reached).spec_len(),
                directories_within(graph, reached.capacity()),
                reached@.contains(root as int),
                forall|n: int| #[trigger] old(reached)@.contains(n) ==> reached@.contains(n),
                reached@.finite(),
                reached@.len() <= reached.capacity(),
                now0.len() <= reached@.len(),
                now0.len() == reached@.len() ==> stack@.len() < stack0.len(),
                forall|g: GraphModel| #[trigger]
                    graph_is(graph, g) ==> {
                        &&& succs@ == (g.succ)(u)
                        &&& reached@.contains(u as int)
                        &&& !marked.contains(u as int)
                        &&& mark_inv(g, roots, marked, reached@, stack@, Some(u))
                        &&& expanded(g, reached@, u, j as int)
                    },
            decreases succs@.len() - j,
        {
            let v: usize = succs[j];
            let ghost now1 = reached@;
            let ghost stack1 = stack@;
            let t = graph.node_type(v);
            if t == NodeType::Directory {
                assert forall|g: GraphModel| #[trigger] graph_is(graph, g) implies {
                    let stack2 = if now1.contains(v as int) {
                        stack1
                    } else {
                        stack1.push(v)
                    };
                    &&& mark_inv(g, roots, marked, now1.insert(v as int), stack2, Some(u))
                    &&& expanded(g, now1.insert(v as int), u, j + 1)
                } by {
                    lemma_mark_step(g, roots, marked, now1, stack1, u, j as int);
                }
                if reached.test_and_set(v) {
                    stack.push(v);
                }
                proof {
                    reached.lemma_bounded();
                    assert(now1.contains(v as int) ==> now1.insert(v as int) =~= now1);
                }
            } else {
                assert forall|g: GraphModel| #[trigger] graph_is(graph, g) implies expanded(
                    g,
                    reached@,
                    u,
                    j + 1,
                ) by {
                    assert(expanded(g, reached@, u, j as int));
                    assert((g.node_type)((g.succ)(u)[j as int]) == t);
                }
            }
            j = j + 1;
        }
        assert forall|g: GraphModel| #[trigger] graph_is(graph, g) implies mark_inv(
            g,
            roots,
            marked,
            reached@,
            stack@,
            None,
        ) by {
            assert(mark_inv(g, roots, marked, reached@, stack@, Some(u)));
            assert(expanded(g, reached@, u, (g.succ)(u).len() as int));
        }
    }
    assert(stack@ =~= Seq::<usize>::empty());
}

/// Marks all directories that are reached from the roots, and the roots.
///
/// What is marked already is not walked again.
pub fn mark_reachable_dirs<G: Graph>(graph: &G, roots: &[usize], reached: &mut NodeBitset)
    requires
        old(reached).wf(),
        forall|i: int| 0 <= i < roots@.len() ==> #[trigger] roots@[i] < old(reached).capacity(),
        directories_within(graph, old(reached).capacity()),
    ensures
        final(reached).wf(),
        final(reached).spec_len() == old(reached).spec_len(),
        forall|g: GraphModel| #[trigger]
            graph_is(graph, g) ==> final(reached)@ == reach(g, roots@.to_set(), old(reached)@),
{
    let ghost marked = reached@;
    let ghost set = roots@.to_set();
    let mut i: usize = 0;
    while i < roots.len()
        invariant
            i <= roots@.len(),
            set == roots@.to_set(),
            reached.wf(),
            reached.spec_len() == old(reached).spec_len(),
            forall|i: int| 0 <= i < roots@.len() ==> #[trigger] roots@[i] < reached.capacity(),
            directories_within(graph, reached.capacity()),
            forall|k: int| 0 <= k < i ==> reached@.contains(#[trigger] roots@[k] as int),
            forall|g: GraphModel| #[trigger]
                graph_is(graph, g) ==> mark_inv(g, set, marked, reached@, Seq::empty(), None),
        decreases roots@.len() - i,
    {
        assert(set.contains(roots@[i as int]));
        mark_from(graph, roots[i], reached, Ghost(set), Ghost(marked));
        i = i + 1;
    }
    assert forall|g: GraphModel| #[trigger] graph_is(graph, g) implies reached@ == reach(
        g,
        set,
        marked,
    ) by {
        assert(mark_inv(g, set, marked, reached@, Seq::empty(), None));
        assert forall|n: usize| #[trigger] set.contains(n) implies reached@.contains(n as int) by {
            let k = choose|k: int| 0 <= k < roots@.len() && roots@[k] == n;
            assert(roots@[k] == n);
        }
        assert forall|n: int| reach(g, set, marked).contains(n) implies reached@.contains(n) by {
            if !marked.contains(n) {
                let node = n as usize;
                let steps = choose|steps: nat| reached_in(g, set, marked, node, steps);
                lemma_marked_all(g, set, marked, reached@, node, steps);
            }
        }
        assert(reached@ =~= reach(g, set, marked));
    }
}

/// All that is reached from the roots, in a bitset over all nodes of the export.
pub fn build_reachable<G: Graph>(graph: &G, roots: &[usize]) -> (r: NodeBitset)
    requires
        forall|i: int|
            0 <= i < roots@.len() ==> #[trigger] roots@[i] < rounded_to_words(
                N_NODES as usize as nat,
            ),
        directories_within(graph, rounded_to_words(N_NODES as usize as nat)),
    ensures
        r.wf(),
        r.spec_len() == N_NODES as usize,
        forall|g: GraphModel| #[trigger]
            graph_is(graph, g) ==> r@ == reach(g, roots@.to_set(), Set::empty()),
{
    let mut reached = NodeBitset::new(N_NODES as usize);
    mark_reachable_dirs(graph, roots, &mut reached);
    reached
}

} // verus!
