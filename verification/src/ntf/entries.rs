//! Directory entries: the labelled arcs of a directory, and how a row of the directory map
//! indexes them.

use vstd::prelude::*;

use crate::ntf::common::{fid_capacity, RequestedFid};
use crate::ntf::graph::{graph_is, labels_view, type_code, EdgeLabel, Graph, GraphModel};

verus! {

/// A directory entry: the id of its name, the child node and the code of the child's type.
pub type Entry = (u64, u64, u8);

/// The entries on one arc to `child`, in label order, of the names in `want`.
pub open spec fn arc_entries(
    g: GraphModel,
    want: Set<int>,
    child: usize,
    labels: Seq<EdgeLabel>,
) -> Seq<Entry>
    decreases labels.len(),
{
    if labels.len() == 0 {
        Seq::empty()
    } else {
        let before = arc_entries(g, want, child, labels.drop_last());
        match labels.last() {
            EdgeLabel::DirEntry { name } => if want.contains(name as int) {
                before.push((name, child as u64, type_code((g.node_type)(child))))
            } else {
                before
            },
            _ => before,
        }
    }
}

/// The entries on the arcs of a node, in the order of the graph, of the names in `want`.
pub open spec fn arcs_entries(
    g: GraphModel,
    want: Set<int>,
    arcs: Seq<(usize, Seq<EdgeLabel>)>,
) -> Seq<Entry>
    decreases arcs.len(),
{
    if arcs.len() == 0 {
        Seq::empty()
    } else {
        arcs_entries(g, want, arcs.drop_last()) + arc_entries(
            g,
            want,
            arcs.last().0,
            arcs.last().1,
        )
    }
}

/// The entries of directory `node`, in the order of the graph, of the names in `want`.
pub open spec fn dir_entries(g: GraphModel, want: Set<int>, node: usize) -> Seq<Entry> {
    arcs_entries(g, want, (g.labels)(node))
}

/// The child and the type code of the first entry with the name `fid`.
pub open spec fn first_named(entries: Seq<Entry>, fid: u64) -> Option<(u64, u8)>
    decreases entries.len(),
{
    if entries.len() == 0 {
        None
    } else if entries[0].0 == fid {
        Some((entries[0].1, entries[0].2))
    } else {
        first_named(entries.drop_first(), fid)
    }
}

/// The names of `row` strictly ascend.
pub open spec fn names_ascend(row: Seq<Entry>) -> bool {
    forall|i: int, j: int| 0 <= i < j < row.len() ==> row[i].0 < row[j].0
}

/// `row` is the index of `entries`: its names ascend, and it has of each name the first
/// entry.
pub open spec fn row_is(row: Seq<Entry>, entries: Seq<Entry>) -> bool {
    &&& names_ascend(row)
    &&& forall|fid: u64| #[trigger] first_named(row, fid) == first_named(entries, fid)
}

/// Every name id that `graph` may answer has a bit in a [`RequestedFid`].
pub open spec fn names_within<G: Graph>(graph: &G) -> bool {
    forall|n: usize, r: Vec<(usize, Vec<EdgeLabel>)>, i: int, j: int|
        #![trigger call_ensures(G::labeled_successors, (graph, n), r), r@[i].1@[j]]
        call_ensures(G::labeled_successors, (graph, n), r) && 0 <= i < r@.len() && 0 <= j
            < r@[i].1@.len() && r@[i].1@[j] is DirEntry ==> r@[i].1@[j]->name < fid_capacity()
}

/// Collects the requested entries of `node`.
pub fn collect_entries<G: Graph>(graph: &G, requested: &RequestedFid, node: usize) -> (r: Vec<
    Entry,
>)
    requires
        requested.wf(),
        names_within(graph),
    ensures
        forall|g: GraphModel| #[trigger]
            graph_is(graph, g) ==> r@ == dir_entries(g, requested@, node),
{
    let arcs = graph.labeled_successors(node);
    let mut buf: Vec<Entry> = Vec::new();
    let mut i: usize = 0;
    while i < arcs.len()
        invariant
            i <= arcs@.len(),
            requested.wf(),
            names_within(graph),
            call_ensures(G::labeled_successors, (graph, node), arcs),
            forall|g: GraphModel| #[trigger]
                graph_is(graph, g) ==> buf@ == arcs_entries(
                    g,
                    requested@,
                    labels_view(arcs@).take(i as int),
                ),
        decreases arcs@.len() - i,
    {
        let child: usize = arcs[i].0;
        let ghost before = buf@;
        let mut j: usize = 0;
        while j < arcs[i].1.len()
            invariant
                i < arcs@.len(),
                j <= arcs@[i as int].1@.len(),
                child == arcs@[i as int].0,
                requested.wf(),
                names_within(graph),
                call_ensures(G::labeled_successors, (graph, node), arcs),
                forall|g: GraphModel| #[trigger]
                    graph_is(graph, g) ==> buf@ == before + arc_entries(
                        g,
                        requested@,
                        child,
                        arcs@[i as int].1@.take(j as int),
                    ),
            decreases arcs@[i as int].1@.len() - j,
        {
            let ghost labels = arcs@[i as int].1@;
            let ghost prev = buf@;
            proof {
                assert(labels.take(j + 1).drop_last() =~= labels.take(j as int));
                assert(labels.take(j + 1).last() == labels[j as int]);
            }
            match arcs[i].1[j] {
                EdgeLabel::DirEntry { name } => {
                    assert(labels[j as int] is DirEntry);
                    if requested.get(name) {
                        let ty = graph.node_type(child).code();
                        buf.push((name, child as u64, ty));
                        assert forall|g: GraphModel| #[trigger] graph_is(graph, g) implies buf@
                            == before + arc_entries(g, requested@, child, labels.take(j + 1)) by {
                            assert(buf@ =~= before + arc_entries(
                                g,
                                requested@,
                                child,
                                labels.take(j + 1),
                            ));
                        }
                    }
                },
                _ => {},
            }
            j = j + 1;
        }
        proof {
            let view = labels_view(arcs@);
            assert(view.take(i + 1).drop_last() =~= view.take(i as int));
            assert(arcs@[i as int].1@.take(j as int) =~= arcs@[i as int].1@);
        }
        i = i + 1;
    }
    proof {
        assert(labels_view(arcs@).take(i as int) =~= labels_view(arcs@));
    }
    buf
}

/// Has the name `fid`.
pub open spec fn has_name(fid: u64) -> spec_fn(Entry) -> bool {
    |e: Entry| e.0 == fid
}

/// The entries with the name `fid`, in their order.
pub open spec fn same_name(entries: Seq<Entry>, fid: u64) -> Seq<Entry> {
    entries.filter(has_name(fid))
}

/// The first entry of a name is the first of the entries with that name.
pub proof fn lemma_first_of_same_name(entries: Seq<Entry>, fid: u64)
    ensures
        first_named(entries, fid) == (if same_name(entries, fid).len() == 0 {
            None
        } else {
            Some((same_name(entries, fid)[0].1, same_name(entries, fid)[0].2))
        }),
    decreases entries.len(),
{
    let named = has_name(fid);
    if entries.len() == 0 {
        reveal(Seq::filter);
    } else {
        let head = seq![entries[0]];
        let rest = entries.drop_first();
        lemma_first_of_same_name(rest, fid);
        assert(entries =~= head + rest);
        Seq::filter_distributes_over_add(head, rest, named);
        assert(head.filter(named) =~= (if entries[0].0 == fid {
            head
        } else {
            Seq::empty()
        })) by {
            reveal(Seq::filter);
            assert(head.drop_last() =~= Seq::empty());
            assert(head.drop_last().filter(named) =~= Seq::empty());
        }
        if entries[0].0 != fid {
            assert(same_name(entries, fid) =~= same_name(rest, fid));
        }
    }
}

/// An entry of a name is found.
pub proof fn lemma_first_named_some(entries: Seq<Entry>, i: int)
    requires
        0 <= i < entries.len(),
    ensures
        first_named(entries, entries[i].0) is Some,
    decreases entries.len(),
{
    if entries[0].0 != entries[i].0 {
        assert(entries.drop_first()[i - 1] == entries[i]);
        lemma_first_named_some(entries.drop_first(), i - 1);
    }
}

/// What is found is an entry of that name, and the first one.
pub proof fn lemma_first_named_index(entries: Seq<Entry>, fid: u64) -> (i: int)
    requires
        first_named(entries, fid) is Some,
    ensures
        0 <= i < entries.len(),
        first_named(entries, fid) == Some((entries[i].1, entries[i].2)),
        entries[i].0 == fid,
        forall|j: int| 0 <= j < i ==> entries[j].0 != fid,
    decreases entries.len(),
{
    if entries[0].0 == fid {
        0
    } else {
        let k = lemma_first_named_index(entries.drop_first(), fid);
        assert forall|j: int| 0 <= j < k + 1 implies entries[j].0 != fid by {
            if j > 0 {
                assert(entries.drop_first()[j - 1] == entries[j]);
            }
        }
        k + 1
    }
}

/// Where the names ascend, the entry of a name is the one that is found.
pub proof fn lemma_first_named_ascending(row: Seq<Entry>, i: int)
    requires
        names_ascend(row),
        0 <= i < row.len(),
    ensures
        first_named(row, row[i].0) == Some((row[i].1, row[i].2)),
{
    lemma_first_named_some(row, i);
    let k = lemma_first_named_index(row, row[i].0);
    if k < i {
        assert(row[k].0 < row[i].0);
    }
}

/// Looking through two parts is looking through the first, then through the second.
pub proof fn lemma_first_named_add(a: Seq<Entry>, b: Seq<Entry>, fid: u64)
    ensures
        first_named(a + b, fid) == (if first_named(a, fid) is Some {
            first_named(a, fid)
        } else {
            first_named(b, fid)
        }),
    decreases a.len(),
{
    if a.len() == 0 {
        assert(a + b =~= b);
    } else {
        assert((a + b).drop_first() =~= a.drop_first() + b);
        assert((a + b)[0] == a[0]);
        lemma_first_named_add(a.drop_first(), b, fid);
    }
}

/// `<[T]>::sort_by_key` with the name as the key: the names do not descend, and since the
/// sort is stable the entries of one name keep their order.
#[verifier::external_body]
fn sort_by_name(entries: &mut Vec<Entry>)
    ensures
        forall|i: int, j: int|
            0 <= i < j < final(entries)@.len() ==> final(entries)@[i].0 <= final(entries)@[j].0,
        forall|fid: u64| #[trigger]
            same_name(final(entries)@, fid) == same_name(old(entries)@, fid),
{
    entries.sort_by_key(|e| e.0);
}

/// Keeps of each run of entries with one name the first.
fn dedup_by_name(entries: &Vec<Entry>) -> (r: Vec<Entry>)
    requires
        forall|i: int, j: int| 0 <= i < j < entries@.len() ==> entries@[i].0 <= entries@[j].0,
    ensures
        row_is(r@, entries@),
{
    let mut row: Vec<Entry> = Vec::new();
    let mut i: usize = 0;
    while i < entries.len()
        invariant
            i <= entries@.len(),
            forall|i: int, j: int| 0 <= i < j < entries@.len() ==> entries@[i].0 <= entries@[j].0,
            row_is(row@, entries@.take(i as int)),
            i == 0 <==> row@.len() == 0,
            i > 0 ==> row@.last().0 == entries@[i - 1].0,
        decreases entries@.len() - i,
    {
        let e: Entry = entries[i];
        let ghost before = entries@.take(i as int);
        let ghost after = entries@.take(i + 1);
        let ghost kept = row@;
        assert(after =~= before + seq![e]);
        if row.len() == 0 || row[row.len() - 1].0 != e.0 {
            row.push(e);
            assert(row@ =~= kept + seq![e]);
            assert(names_ascend(row@)) by {
                if i > 0 {
                    assert(entries@[i - 1].0 <= e.0);
                }
            }
            assert forall|fid: u64| #[trigger] first_named(row@, fid) == first_named(after, fid) by {
                lemma_first_named_add(kept, seq![e], fid);
                lemma_first_named_add(before, seq![e], fid);
                assert(first_named(kept, fid) == first_named(before, fid));
            }
        } else {
            assert forall|fid: u64| #[trigger] first_named(row@, fid) == first_named(after, fid) by {
                lemma_first_named_add(before, seq![e], fid);
                assert(first_named(kept, fid) == first_named(before, fid));
                lemma_first_named_some(before, i - 1);
                if fid != e.0 {
                    reveal_with_fuel(first_named, 2);
                    assert(first_named(seq![e], fid) is None);
                }
            }
        }
        i = i + 1;
    }
    assert(entries@.take(i as int) =~= entries@);
    row
}

/// Indexes the entries of one directory by name.
pub fn index_row(entries: Vec<Entry>) -> (r: Vec<Entry>)
    ensures
        row_is(r@, entries@),
        r@.len() == 0 <==> entries@.len() == 0,
{
    let mut sorted = entries;
    sort_by_name(&mut sorted);
    let row = dedup_by_name(&sorted);
    proof {
        assert forall|fid: u64| #[trigger] first_named(row@, fid) == first_named(entries@, fid) by {
            assert(first_named(row@, fid) == first_named(sorted@, fid));
            lemma_first_of_same_name(sorted@, fid);
            lemma_first_of_same_name(entries@, fid);
            assert(same_name(sorted@, fid) == same_name(entries@, fid));
        }
        if row@.len() > 0 {
            lemma_first_named_some(row@, 0);
            assert(first_named(entries@, row@[0].0) is Some);
        }
        if entries@.len() > 0 {
            lemma_first_named_some(entries@, 0);
            assert(first_named(row@, entries@[0].0) is Some);
        }
    }
    row
}

} // verus!
