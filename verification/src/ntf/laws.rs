//! The laws that tie the stages together.

use vstd::prelude::*;

use crate::ntf::columns::rank;
use crate::ntf::common::{
    lookup_in, status_code, DirMap, Status, FID_MISSING, N_LABELS, ROOT_MISSING,
};
use crate::ntf::entries::{
    arc_entries, arcs_entries, dir_entries, first_named, lemma_first_named_add,
    lemma_first_named_index, lemma_first_named_some, names_ascend, row_is, Entry,
};
use crate::ntf::graph::{type_code, EdgeLabel, GraphModel, NodeType};
use crate::ntf::hydrate::{found, has_rows, hydrated, scan_is, scanned, DirRow};
use crate::ntf::maps::value_or;
use crate::ntf::names::{ids_below, requested_below};
use crate::ntf::provenance::{first_directory, root_dir};
use crate::ntf::reach::{is_reached, reach, reached_in};
use crate::ntf::seeds::{fids_of, root_of_id, seed_row, SeedRow};
use crate::ntf::sorted::{ascends, lists};
use crate::ntf::text::{component_bytes, components, full_rev_id, non_empty, pieces};
use crate::ntf::traverse::{walk, walk_from, PassThrough};
use crate::ntf::verify::{child_named, direct, direct_from, direct_leaf, has_label};

verus! {

/// No two ids of the label table have the same name.
pub open spec fn names_unique(g: GraphModel) -> bool {
    forall|a: u64, b: u64|
        #![trigger (g.label_name)(a), (g.label_name)(b)]
        a < N_LABELS && b < N_LABELS && (g.label_name)(a) == (g.label_name)(b) ==> a == b
}

/// Every directory entry has its name in the label table.
pub open spec fn names_in_table(g: GraphModel) -> bool {
    forall|n: usize, i: int, j: int|
        #![trigger (g.labels)(n)[i].1[j]]
        0 <= i < (g.labels)(n).len() && 0 <= j < (g.labels)(n)[i].1.len() && (
        g.labels)(n)[i].1[j] is DirEntry ==> (g.labels)(n)[i].1[j]->name < N_LABELS
}

/// Every labelled arc is an arc.
pub open spec fn arcs_agree(g: GraphModel) -> bool {
    forall|n: usize, i: int|
        0 <= i < (g.labels)(n).len() ==> (g.succ)(n).contains((#[trigger] (g.labels)(n)[i]).0)
}

/// The ids that are found have the names they are found for; a name for which none is found
/// is in the label table under no id.
pub proof fn law_ids_have_names(g: GraphModel, distinct: Set<Seq<u8>>, n: int, name: Seq<u8>)
    requires
        0 <= n <= u64::MAX,
    ensures
        ids_below(g, distinct, n).contains_key(name) ==> {
            let id = ids_below(g, distinct, n)[name];
            id < n && (g.label_name)(id) == name && distinct.contains(name)
        },
        !ids_below(g, distinct, n).contains_key(name) && distinct.contains(name) ==> forall|id: u64|
            id < n ==> #[trigger] (g.label_name)(id) != name,
    decreases n,
{
    if n > 0 {
        law_ids_have_names(g, distinct, n - 1, name);
        assert forall|id: u64|
            !ids_below(g, distinct, n).contains_key(name) && distinct.contains(name) && id
                < n implies #[trigger] (g.label_name)(id) != name by {
            if id == n - 1 {
                assert((n - 1) as u64 == id);
            }
        }
    }
}

/// The entries on one arc.
proof fn lemma_arc(
    g: GraphModel,
    want: Set<int>,
    child: usize,
    labels: Seq<EdgeLabel>,
    fid: u64,
    name: Seq<u8>,
)
    requires
        want.contains(fid as int),
        fid < N_LABELS,
        (g.label_name)(fid) == name,
        names_unique(g),
        forall|j: int|
            0 <= j < labels.len() && (#[trigger] labels[j]) is DirEntry ==> labels[j]->name
                < N_LABELS,
    ensures
        first_named(arc_entries(g, want, child, labels), fid) == (if has_label(g, labels, name) {
            Some((child as u64, type_code((g.node_type)(child))))
        } else {
            None
        }),
    decreases labels.len(),
{
    if labels.len() > 0 {
        let before = labels.drop_last();
        let last = labels.last();
        assert forall|j: int| 0 <= j < before.len() && (#[trigger] before[j]) is DirEntry implies before[j]->name
            < N_LABELS by {
            assert(before[j] == labels[j]);
        }
        lemma_arc(g, want, child, before, fid, name);
        assert(has_label(g, labels, name) <==> has_label(g, before, name) || (last is DirEntry && (
        g.label_name)(last->name) == name)) by {
            if has_label(g, before, name) {
                let j = choose|j: int|
                    0 <= j < before.len() && (#[trigger] before[j]) is DirEntry && (g.label_name)(
                        before[j]->name,
                    ) == name;
                assert(labels[j] == before[j]);
            }
            if has_label(g, labels, name) {
                let j = choose|j: int|
                    0 <= j < labels.len() && (#[trigger] labels[j]) is DirEntry && (g.label_name)(
                        labels[j]->name,
                    ) == name;
                if j < before.len() {
                    assert(before[j] == labels[j]);
                }
            }
            assert(labels[labels.len() - 1] == last);
        }
        if let EdgeLabel::DirEntry { name: id } = last {
            assert(labels[labels.len() - 1] is DirEntry);
            let e: Entry = (id, child as u64, type_code((g.node_type)(child)));
            let entries = arc_entries(g, want, child, before);
            assert(entries.push(e) =~= entries + seq![e]);
            lemma_first_named_add(entries, seq![e], fid);
            reveal_with_fuel(first_named, 2);
            if (g.label_name)(id) == name {
                assert(id == fid);
            }
        }
    }
}

proof fn lemma_child_named_push(
    g: GraphModel,
    arcs: Seq<(usize, Seq<EdgeLabel>)>,
    arc: (usize, Seq<EdgeLabel>),
    name: Seq<u8>,
)
    ensures
        child_named(g, arcs.push(arc), name) == (if child_named(g, arcs, name) is Some {
            child_named(g, arcs, name)
        } else if has_label(g, arc.1, name) {
            Some(arc.0)
        } else {
            None
        }),
    decreases arcs.len(),
{
    let after = arcs.push(arc);
    if arcs.len() == 0 {
        reveal_with_fuel(child_named, 2);
        assert(after[0] == arc);
        assert(after.drop_first() =~= Seq::empty());
    } else {
        assert(after[0] == arcs[0]);
        assert(after.drop_first() =~= arcs.drop_first().push(arc));
        lemma_child_named_push(g, arcs.drop_first(), arc, name);
    }
}

/// The entries on the first arcs of a node.
proof fn lemma_arcs(
    g: GraphModel,
    want: Set<int>,
    arcs: Seq<(usize, Seq<EdgeLabel>)>,
    fid: u64,
    name: Seq<u8>,
)
    requires
        want.contains(fid as int),
        fid < N_LABELS,
        (g.label_name)(fid) == name,
        names_unique(g),
        forall|i: int, j: int|
            #![trigger arcs[i].1[j]]
            0 <= i < arcs.len() && 0 <= j < arcs[i].1.len() && arcs[i].1[j] is DirEntry
                ==> arcs[i].1[j]->name < N_LABELS,
    ensures
        first_named(arcs_entries(g, want, arcs), fid) == (match child_named(g, arcs, name) {
            Some(c) => Some((c as u64, type_code((g.node_type)(c)))),
            None => None,
        }),
    decreases arcs.len(),
{
    if arcs.len() > 0 {
        let before = arcs.drop_last();
        let last = arcs.last();
        assert forall|i: int, j: int|
            #![trigger before[i].1[j]]
            0 <= i < before.len() && 0 <= j < before[i].1.len()
                && before[i].1[j] is DirEntry implies before[i].1[j]->name < N_LABELS by {
            assert(before[i] == arcs[i]);
            assert(arcs[i].1[j] is DirEntry);
        }
        lemma_arcs(g, want, before, fid, name);
        assert forall|j: int| 0 <= j < last.1.len() && (#[trigger] last.1[j]) is DirEntry implies last.1[j]->name
            < N_LABELS by {
            assert(arcs[arcs.len() - 1].1[j] is DirEntry);
        }
        lemma_arc(g, want, last.0, last.1, fid, name);
        lemma_first_named_add(
            arcs_entries(g, want, before),
            arc_entries(g, want, last.0, last.1),
            fid,
        );
        assert(arcs =~= before.push(last));
        lemma_child_named_push(g, before, last, name);
    }
}

/// A name that no id has is on no arc.
proof fn lemma_no_child(g: GraphModel, arcs: Seq<(usize, Seq<EdgeLabel>)>, name: Seq<u8>)
    requires
        forall|id: u64| id < N_LABELS ==> #[trigger] (g.label_name)(id) != name,
        forall|i: int, j: int|
            #![trigger arcs[i].1[j]]
            0 <= i < arcs.len() && 0 <= j < arcs[i].1.len() && arcs[i].1[j] is DirEntry
                ==> arcs[i].1[j]->name < N_LABELS,
    ensures
        child_named(g, arcs, name) is None,
    decreases arcs.len(),
{
    if arcs.len() > 0 {
        assert(!has_label(g, arcs[0].1, name)) by {
            if has_label(g, arcs[0].1, name) {
                let j = choose|j: int|
                    0 <= j < arcs[0].1.len() && (#[trigger] arcs[0].1[j]) is DirEntry && (
                    g.label_name)(arcs[0].1[j]->name) == name;
                assert(arcs[0].1[j] is DirEntry);
            }
        }
        let rest = arcs.drop_first();
        assert forall|i: int, j: int|
            #![trigger rest[i].1[j]]
            0 <= i < rest.len() && 0 <= j < rest[i].1.len()
                && rest[i].1[j] is DirEntry implies rest[i].1[j]->name < N_LABELS by {
            assert(rest[i] == arcs[i + 1]);
            assert(arcs[i + 1].1[j] is DirEntry);
        }
        lemma_no_child(g, rest, name);
    }
}

/// The child that is found is on an arc.
proof fn lemma_child_on_arc(g: GraphModel, arcs: Seq<(usize, Seq<EdgeLabel>)>, name: Seq<u8>) -> (i:
    int)
    requires
        child_named(g, arcs, name) is Some,
    ensures
        0 <= i < arcs.len(),
        arcs[i].0 == child_named(g, arcs, name)->0,
    decreases arcs.len(),
{
    if has_label(g, arcs[0].1, name) {
        0
    } else {
        let k = lemma_child_on_arc(g, arcs.drop_first(), name);
        k + 1
    }
}

/// A step of the walk in a directory that is scanned finds the first entry of the name.
pub proof fn law_lookup(
    g: GraphModel,
    reached: Set<int>,
    want: Set<int>,
    sequential: bool,
    num_nodes: usize,
    m: Map<u64, Seq<Entry>>,
    dir: u64,
    fid: u64,
)
    requires
        hydrated(g, reached, want, sequential, num_nodes, m),
    ensures
        lookup_in(m, dir, fid) == (if dir < num_nodes && scanned(
            g,
            reached,
            sequential,
            dir as usize,
        ) {
            first_named(dir_entries(g, want, dir as usize), fid)
        } else {
            None
        }),
{
    let entries = dir_entries(g, want, dir as usize);
    if m.contains_key(dir) {
        assert(row_is(m[dir], entries));
        assert(first_named(m[dir], fid) == first_named(entries, fid));
    } else if dir < num_nodes && scanned(g, reached, sequential, dir as usize) {
        assert(!found(g, reached, want, sequential, dir as usize));
        assert(entries.len() == 0);
    }
}

/// Of a name, the requested entries are all entries where it is requested, and none where it
/// is not.
proof fn lemma_requested_arc(
    g: GraphModel,
    want: Set<int>,
    child: usize,
    labels: Seq<EdgeLabel>,
    fid: u64,
)
    ensures
        first_named(arc_entries(g, want, child, labels), fid) == (if want.contains(fid as int) {
            first_named(arc_entries(g, Set::full(), child, labels), fid)
        } else {
            None
        }),
    decreases labels.len(),
{
    if labels.len() > 0 {
        let before = labels.drop_last();
        lemma_requested_arc(g, want, child, before, fid);
        if let EdgeLabel::DirEntry { name } = labels.last() {
            let e: Entry = (name, child as u64, type_code((g.node_type)(child)));
            let some = arc_entries(g, want, child, before);
            let all = arc_entries(g, Set::full(), child, before);
            assert(some.push(e) =~= some + seq![e]);
            assert(all.push(e) =~= all + seq![e]);
            lemma_first_named_add(some, seq![e], fid);
            lemma_first_named_add(all, seq![e], fid);
            reveal_with_fuel(first_named, 2);
        }
    }
}

proof fn lemma_requested_arcs(
    g: GraphModel,
    want: Set<int>,
    arcs: Seq<(usize, Seq<EdgeLabel>)>,
    fid: u64,
)
    ensures
        first_named(arcs_entries(g, want, arcs), fid) == (if want.contains(fid as int) {
            first_named(arcs_entries(g, Set::full(), arcs), fid)
        } else {
            None
        }),
    decreases arcs.len(),
{
    if arcs.len() > 0 {
        let before = arcs.drop_last();
        let last = arcs.last();
        lemma_requested_arcs(g, want, before, fid);
        lemma_requested_arc(g, want, last.0, last.1, fid);
        lemma_first_named_add(
            arcs_entries(g, want, before),
            arc_entries(g, want, last.0, last.1),
            fid,
        );
        lemma_first_named_add(
            arcs_entries(g, Set::full(), before),
            arc_entries(g, Set::full(), last.0, last.1),
            fid,
        );
    }
}

/// The directory map has the entries of the reachable directories with the requested names,
/// and no others: in such a directory, a requested name is found just as it is found among
/// all entries of the directory.
pub proof fn law_map_is_exact(
    g: GraphModel,
    reached: Set<int>,
    want: Set<int>,
    sequential: bool,
    num_nodes: usize,
    m: Map<u64, Seq<Entry>>,
    dir: u64,
    fid: u64,
)
    requires
        hydrated(g, reached, want, sequential, num_nodes, m),
    ensures
        lookup_in(m, dir, fid) == (if dir < num_nodes && scanned(
            g,
            reached,
            sequential,
            dir as usize,
        ) && want.contains(fid as int) {
            first_named(dir_entries(g, Set::full(), dir as usize), fid)
        } else {
            None
        }),
{
    law_lookup(g, reached, want, sequential, num_nodes, m, dir, fid);
    lemma_requested_arcs(g, want, (g.labels)(dir as usize), fid);
}

/// One step of the walk is one step of the direct walk.
proof fn lemma_step(
    g: GraphModel,
    distinct: Set<Seq<u8>>,
    reached: Set<int>,
    sequential: bool,
    num_nodes: usize,
    m: Map<u64, Seq<Entry>>,
    cur: usize,
    name: Seq<u8>,
)
    requires
        names_unique(g),
        names_in_table(g),
        distinct.contains(name),
        hydrated(
            g,
            reached,
            requested_below(g, distinct, N_LABELS as int),
            sequential,
            num_nodes,
            m,
        ),
        cur < num_nodes,
        scanned(g, reached, sequential, cur),
    ensures
        ({
            let fid = value_or(ids_below(g, distinct, N_LABELS as int), name, FID_MISSING);
            let child = child_named(g, (g.labels)(cur), name);
            &&& fid == FID_MISSING ==> child is None
            &&& fid != FID_MISSING ==> lookup_in(m, cur as u64, fid) == (match child {
                Some(c) => Some((c as u64, type_code((g.node_type)(c)))),
                None => None,
            })
        }),
{
    let want = requested_below(g, distinct, N_LABELS as int);
    let ids = ids_below(g, distinct, N_LABELS as int);
    let arcs = (g.labels)(cur);
    law_ids_have_names(g, distinct, N_LABELS as int, name);
    assert forall|i: int, j: int|
        #![trigger arcs[i].1[j]]
        0 <= i < arcs.len() && 0 <= j < arcs[i].1.len()
            && arcs[i].1[j] is DirEntry implies arcs[i].1[j]->name < N_LABELS by {
        assert((g.labels)(cur)[i].1[j] is DirEntry);
    }
    if ids.contains_key(name) {
        let fid = ids[name];
        assert(want.contains(fid as int));
        lemma_arcs(g, want, arcs, fid, name);
        law_lookup(g, reached, want, sequential, num_nodes, m, cur as u64, fid);
        assert((cur as u64) as usize == cur);
    } else {
        lemma_no_child(g, arcs, name);
    }
}

/// The walk over the directory map is the direct walk.
proof fn lemma_walks_agree(
    g: GraphModel,
    distinct: Set<Seq<u8>>,
    roots: Set<usize>,
    sequential: bool,
    num_nodes: usize,
    m: Map<u64, Seq<Entry>>,
    cur: usize,
    path: Seq<Seq<u8>>,
)
    requires
        names_unique(g),
        names_in_table(g),
        arcs_agree(g),
        forall|i: int| 0 <= i < path.len() ==> distinct.contains(#[trigger] path[i]),
        forall|d: usize| #[trigger] (g.node_type)(d) == NodeType::Directory ==> d < num_nodes,
        hydrated(
            g,
            reach(g, roots, Set::empty()),
            requested_below(g, distinct, N_LABELS as int),
            sequential,
            num_nodes,
            m,
        ),
        reach(g, roots, Set::empty()).contains(cur as int),
        (g.node_type)(cur) == NodeType::Directory,
    ensures
        ({
            let ids = ids_below(g, distinct, N_LABELS as int);
            let (leaf, status) = walk_from(m, cur as u64, fids_of(ids, path));
            match direct_from(g, cur, path) {
                Some(l) => status == Status::Resolved && leaf == l,
                None => status != Status::Resolved && leaf == 0,
            }
        }),
    decreases path.len(),
{
    let ids = ids_below(g, distinct, N_LABELS as int);
    let reached = reach(g, roots, Set::empty());
    let fids = fids_of(ids, path);
    if path.len() > 0 {
        let name = path[0];
        assert(distinct.contains(path[0]));
        lemma_step(g, distinct, reached, sequential, num_nodes, m, cur, name);
        assert(fids[0] == value_or(ids, name, FID_MISSING));
        let rest = path.drop_first();
        assert(fids.drop_first() =~= fids_of(ids, rest));
        let child = child_named(g, (g.labels)(cur), name);
        if let Some(c) = child {
            if path.len() > 1 && (g.node_type)(c) == NodeType::Directory {
                let i = lemma_child_on_arc(g, (g.labels)(cur), name);
                assert((g.labels)(cur)[i].0 == c);
                assert((g.succ)(cur).contains(c));
                lemma_reach_step(g, roots, cur, c);
                assert forall|i: int| 0 <= i < rest.len() implies distinct.contains(
                    #[trigger] rest[i],
                ) by {
                    assert(rest[i] == path[i + 1]);
                }
                lemma_walks_agree(g, distinct, roots, sequential, num_nodes, m, c, rest);
            }
        }
    }
}

/// A directory that follows one that is reached is reached.
proof fn lemma_reach_step(g: GraphModel, roots: Set<usize>, u: usize, v: usize)
    requires
        reach(g, roots, Set::empty()).contains(u as int),
        (g.succ)(u).contains(v),
        (g.node_type)(v) == NodeType::Directory,
    ensures
        reach(g, roots, Set::empty()).contains(v as int),
{
    let none = Set::<int>::empty();
    assert((u as int) as usize == u);
    assert(is_reached(g, roots, none, u));
    let steps = choose|steps: nat| reached_in(g, roots, none, u, steps);
    assert(reached_in(g, roots, none, v, steps + 1)) by {
        assert((g.succ)(u).contains(v) && reached_in(g, roots, none, u, ((steps + 1) - 1) as nat));
    }
    assert(is_reached(g, roots, none, v));
    assert((v as int) as usize == v);
}

/// The first directory of a list is a directory.
proof fn lemma_first_directory(g: GraphModel, nodes: Seq<usize>)
    ensures
        first_directory(g, nodes) matches Some(d) ==> (g.node_type)(d) == NodeType::Directory,
    decreases nodes.len(),
{
    if nodes.len() > 0 {
        lemma_first_directory(g, nodes.drop_first());
    }
}

/// The whole pipeline agrees with the direct walk over the graph: a row is resolved just
/// where the direct walk comes to a content, and then to that content.
///
/// The names are those of a set that holds the components of the row's path; the directory
/// map is that of the directories reached from roots that hold the row's root. Of the graph
/// it is asked that no two ids of the label table have one name, that all entries have their
/// name in it, and that the labelled arcs are arcs.
pub proof fn law_pipeline_is_direct(
    g: GraphModel,
    distinct: Set<Seq<u8>>,
    roots: Set<usize>,
    sequential: bool,
    num_nodes: usize,
    m: Map<u64, Seq<Entry>>,
    rev: Seq<char>,
    rel_path: Seq<char>,
    bin: Seq<char>,
)
    requires
        names_unique(g),
        names_in_table(g),
        arcs_agree(g),
        forall|i: int|
            0 <= i < component_bytes(rel_path).len() ==> distinct.contains(
                #[trigger] component_bytes(rel_path)[i],
            ),
        root_of_id(g, full_rev_id(rev)) != ROOT_MISSING ==> roots.contains(
            root_of_id(g, full_rev_id(rev)) as usize,
        ),
        hydrated(
            g,
            reach(g, roots, Set::empty()),
            requested_below(g, distinct, N_LABELS as int),
            sequential,
            num_nodes,
            m,
        ),
        forall|d: usize| #[trigger] (g.node_type)(d) == NodeType::Directory ==> d < num_nodes,
    ensures
        ({
            let ids = ids_below(g, distinct, N_LABELS as int);
            let (leaf, status) = walk(m, seed_row(g, ids, rev, rel_path, bin));
            match direct_leaf(g, full_rev_id(rev), rel_path) {
                Some(l) => status == Status::Resolved && leaf == l,
                None => status != Status::Resolved && leaf == 0,
            }
        }),
{
    let rid = full_rev_id(rev);
    if let Some(node) = (g.node_id)(rid) {
        if let Some(root) = root_dir(g, node) {
            lemma_first_directory(g, (g.succ)(node));
            assert((root as u64) as usize == root);
            assert(root < num_nodes);
            let none = Set::<int>::empty();
            assert(reached_in(g, roots, none, root, 0));
            assert(is_reached(g, roots, none, root));
            assert((root as int) as usize == root);
            lemma_walks_agree(
                g,
                distinct,
                roots,
                sequential,
                num_nodes,
                m,
                root,
                component_bytes(rel_path),
            );
        }
    }
}

/// An index row is determined by what is found in it.
proof fn lemma_row_unique(a: Seq<Entry>, b: Seq<Entry>)
    requires
        names_ascend(a),
        names_ascend(b),
        forall|fid: u64| #[trigger] first_named(a, fid) == first_named(b, fid),
    ensures
        a == b,
    decreases a.len(),
{
    if a.len() == 0 {
        if b.len() > 0 {
            lemma_first_named_some(b, 0);
            assert(first_named(a, b[0].0) == first_named(b, b[0].0));
        }
        assert(a =~= b);
    } else {
        lemma_first_named_some(a, 0);
        assert(first_named(a, a[0].0) == first_named(b, a[0].0));
        let k = lemma_first_named_index(b, a[0].0);
        lemma_first_named_some(b, 0);
        assert(first_named(a, b[0].0) == first_named(b, b[0].0));
        let l = lemma_first_named_index(a, b[0].0);
        assert(a[0].0 <= a[l].0);
        assert(b[0].0 <= b[k].0);
        let ta = a.drop_first();
        let tb = b.drop_first();
        assert forall|fid: u64| #[trigger] first_named(ta, fid) == first_named(tb, fid) by {
            assert(first_named(a, fid) == first_named(b, fid));
            if fid == a[0].0 {
                if first_named(ta, fid) is Some {
                    let i = lemma_first_named_index(ta, fid);
                    assert(a[0].0 < a[i + 1].0);
                }
                if first_named(tb, fid) is Some {
                    let i = lemma_first_named_index(tb, fid);
                    assert(b[0].0 < b[i + 1].0);
                }
            }
        }
        lemma_row_unique(ta, tb);
        assert(a =~= seq![a[0]] + ta);
        assert(b =~= seq![b[0]] + tb);
    }
}

/// For a revision that is given by its SWHID in full, the direct walk finds the SWHID of the
/// leaf of the pipeline where the row is resolved, and nothing where it is not; nothing either
/// for a path without components.
pub proof fn law_direct_swhid(
    g: GraphModel,
    distinct: Set<Seq<u8>>,
    roots: Set<usize>,
    sequential: bool,
    num_nodes: usize,
    m: Map<u64, Seq<Entry>>,
    rev: Seq<char>,
    rel_path: Seq<char>,
    bin: Seq<char>,
)
    requires
        "swh:1:rev:"@.is_prefix_of(rev),
        names_unique(g),
        names_in_table(g),
        arcs_agree(g),
        forall|i: int|
            0 <= i < component_bytes(rel_path).len() ==> distinct.contains(
                #[trigger] component_bytes(rel_path)[i],
            ),
        root_of_id(g, rev) != ROOT_MISSING ==> roots.contains(root_of_id(g, rev) as usize),
        hydrated(
            g,
            reach(g, roots, Set::empty()),
            requested_below(g, distinct, N_LABELS as int),
            sequential,
            num_nodes,
            m,
        ),
        forall|d: usize| #[trigger] (g.node_type)(d) == NodeType::Directory ==> d < num_nodes,
    ensures
        ({
            let ids = ids_below(g, distinct, N_LABELS as int);
            let (leaf, status) = walk(m, seed_row(g, ids, rev, rel_path, bin));
            direct(g, rev, rel_path) == (if status == Status::Resolved {
                Some((g.swhid)(leaf as usize))
            } else {
                None
            })
        }),
        component_bytes(rel_path).len() == 0 ==> direct(g, rev, rel_path) is None,
{
    assert(full_rev_id(rev) == rev);
    law_pipeline_is_direct(
        g,
        distinct,
        roots,
        sequential,
        num_nodes,
        m,
        rev,
        rel_path,
        bin,
    );
}

/// The directory map is determined by the graph, the reachable directories and the requested
/// names: it does not depend on the number of bands in which the nodes were scanned.
pub proof fn law_directory_map_unique(
    g: GraphModel,
    reached: Set<int>,
    want: Set<int>,
    sequential: bool,
    num_nodes: usize,
    a: Map<u64, Seq<Entry>>,
    b: Map<u64, Seq<Entry>>,
)
    requires
        hydrated(g, reached, want, sequential, num_nodes, a),
        hydrated(g, reached, want, sequential, num_nodes, b),
    ensures
        a == b,
{
    assert forall|d: u64| #[trigger] a.contains_key(d) <==> b.contains_key(d) by {
        assert(a.contains_key(d) <==> b.contains_key(d));
    }
    assert forall|d: u64| #[trigger] a.contains_key(d) implies a[d] == b[d] by {
        assert(b.contains_key(d));
        let entries = dir_entries(g, want, d as usize);
        assert(row_is(a[d], entries));
        assert(row_is(b[d], entries));
        assert forall|fid: u64| #[trigger] first_named(a[d], fid) == first_named(b[d], fid) by {
            assert(first_named(a[d], fid) == first_named(entries, fid));
            assert(first_named(b[d], fid) == first_named(entries, fid));
        }
        lemma_row_unique(a[d], b[d]);
    }
    assert(a =~= b);
}

/// The rows of a scan are determined by the graph, the reachable directories, the requested
/// names and the nodes that are scanned.
pub proof fn law_scan_rows_unique(
    g: GraphModel,
    reached: Set<int>,
    want: Set<int>,
    sequential: bool,
    lo: usize,
    hi: usize,
    a: Seq<DirRow>,
    b: Seq<DirRow>,
)
    requires
        scan_is(g, reached, want, sequential, lo, hi, a),
        scan_is(g, reached, want, sequential, lo, hi, b),
    ensures
        a == b,
    decreases a.len(),
{
    if a.len() > 0 && b.len() > 0 {
        lemma_last_dir(g, reached, want, sequential, lo, hi, a, b);
        lemma_last_dir(g, reached, want, sequential, lo, hi, b, a);
        let n = a.last().0 as usize;
        assert(a[a.len() - 1].0 == n && b[b.len() - 1].0 == n);
        let entries = dir_entries(g, want, n);
        assert(row_is(a.last().1, entries));
        assert(row_is(b.last().1, entries));
        assert forall|fid: u64| #[trigger]
            first_named(a.last().1, fid) == first_named(b.last().1, fid) by {
            assert(first_named(a.last().1, fid) == first_named(entries, fid));
            assert(first_named(b.last().1, fid) == first_named(entries, fid));
        }
        lemma_row_unique(a.last().1, b.last().1);
        lemma_scan_before(g, reached, want, sequential, lo, hi, a);
        lemma_scan_before(g, reached, want, sequential, lo, hi, b);
        law_scan_rows_unique(g, reached, want, sequential, lo, n, a.drop_last(), b.drop_last());
        assert(a =~= a.drop_last().push(a.last()));
        assert(b =~= b.drop_last().push(b.last()));
    } else if a.len() > 0 {
        assert(found(g, reached, want, sequential, a[0].0 as usize));
        assert(false);
    } else if b.len() > 0 {
        assert(found(g, reached, want, sequential, b[0].0 as usize));
        assert(false);
    }
}

/// The last directory of one scan is not behind that of another.
proof fn lemma_last_dir(
    g: GraphModel,
    reached: Set<int>,
    want: Set<int>,
    sequential: bool,
    lo: usize,
    hi: usize,
    a: Seq<DirRow>,
    b: Seq<DirRow>,
)
    requires
        scan_is(g, reached, want, sequential, lo, hi, a),
        scan_is(g, reached, want, sequential, lo, hi, b),
        a.len() > 0,
        b.len() > 0,
    ensures
        a.last().0 <= b.last().0,
{
    let n = a[a.len() - 1].0 as usize;
    assert(found(g, reached, want, sequential, n));
    let i = choose|i: int| 0 <= i < b.len() && (#[trigger] b[i]).0 == n;
    if i < b.len() - 1 {
        assert(b[i].0 < b[b.len() - 1].0);
    }
}

/// Without its last row, a scan is that of the nodes before the last directory.
proof fn lemma_scan_before(
    g: GraphModel,
    reached: Set<int>,
    want: Set<int>,
    sequential: bool,
    lo: usize,
    hi: usize,
    rows: Seq<DirRow>,
)
    requires
        scan_is(g, reached, want, sequential, lo, hi, rows),
        rows.len() > 0,
    ensures
        scan_is(
            g,
            reached,
            want,
            sequential,
            lo,
            rows.last().0 as usize,
            rows.drop_last(),
        ),
{
    let before = rows.drop_last();
    let last = rows[rows.len() - 1];
    let n = last.0 as usize;
    assert forall|i: int| 0 <= i < before.len() implies {
        let d = (#[trigger] before[i]).0 as usize;
        &&& d == before[i].0
        &&& lo <= d < n
        &&& found(g, reached, want, sequential, d)
        &&& row_is(before[i].1, dir_entries(g, want, d))
    } by {
        assert(before[i] == rows[i]);
        assert(rows[i].0 < last.0);
    }
    assert forall|d: usize|
        lo <= d < n && #[trigger] found(g, reached, want, sequential, d) implies exists|i: int|
        0 <= i < before.len() && (#[trigger] before[i]).0 == d by {
        let i = choose|i: int| 0 <= i < rows.len() && (#[trigger] rows[i]).0 == d;
        assert(before[i].0 == d);
    }
}

/// The rows determine every field of the directory map.
pub proof fn law_rows_fix_fields(rows: Seq<DirRow>, a: DirMap, b: DirMap)
    requires
        has_rows(a, rows),
        has_rows(b, rows),
    ensures
        a.index@ == b.index@,
        a.offsets@ == b.offsets@,
        a.ent_fid@ == b.ent_fid@,
        a.ent_child@ == b.ent_child@,
        a.ent_ty@ == b.ent_ty@,
{
    lemma_fields_upto(rows, a, b, rows.len() as int);
    assert forall|i: int| 0 <= i < a.offsets@.len() implies a.offsets@[i] == b.offsets@[i] by {
        lemma_fields_upto(rows, a, b, i);
    }
    assert(a.offsets@ =~= b.offsets@);
    assert(a.ent_fid@ =~= b.ent_fid@);
    assert(a.ent_child@ =~= b.ent_child@);
    assert(a.ent_ty@ =~= b.ent_ty@);
}

/// Two maps with the same rows agree up to row `n`.
proof fn lemma_fields_upto(rows: Seq<DirRow>, a: DirMap, b: DirMap, n: int)
    requires
        has_rows(a, rows),
        has_rows(b, rows),
        0 <= n <= rows.len(),
    ensures
        a.offsets@[n] == b.offsets@[n],
        forall|p: int|
            #![trigger a.ent_fid@[p]]
            #![trigger a.ent_child@[p]]
            #![trigger a.ent_ty@[p]]
            0 <= p < a.offsets@[n] ==> a.ent_fid@[p] == b.ent_fid@[p] && a.ent_child@[p]
                == b.ent_child@[p] && a.ent_ty@[p] == b.ent_ty@[p],
    decreases n,
{
    if n > 0 {
        lemma_fields_upto(rows, a, b, n - 1);
        let row = rows[n - 1].1;
        let s = a.offsets@[n - 1] as int;
        assert(a.row(n - 1) == row && b.row(n - 1) == row);
        assert(a.offsets@[n - 1] <= a.offsets@[n]);
        assert(b.offsets@[n - 1] <= b.offsets@[n]);
        assert(row.len() == a.offsets@[n] - s);
        assert(row.len() == b.offsets@[n] - s);
        assert forall|p: int| s <= p < a.offsets@[n] implies a.ent_fid@[p] == b.ent_fid@[p]
            && a.ent_child@[p] == b.ent_child@[p] && a.ent_ty@[p] == b.ent_ty@[p] by {
            assert(a.row(n - 1)[p - s] == b.row(n - 1)[p - s]);
        }
    }
}

/// Two directory maps of the same scan have the same fields, in however many bands the nodes
/// were scanned.
pub proof fn law_bands_change_nothing(
    g: GraphModel,
    reached: Set<int>,
    want: Set<int>,
    sequential: bool,
    num_nodes: usize,
    rows_a: Seq<DirRow>,
    rows_b: Seq<DirRow>,
    a: DirMap,
    b: DirMap,
)
    requires
        scan_is(g, reached, want, sequential, 0, num_nodes, rows_a),
        scan_is(g, reached, want, sequential, 0, num_nodes, rows_b),
        has_rows(a, rows_a),
        has_rows(b, rows_b),
    ensures
        a.index@ == b.index@,
        a.offsets@ == b.offsets@,
        a.ent_fid@ == b.ent_fid@,
        a.ent_child@ == b.ent_child@,
        a.ent_ty@ == b.ent_ty@,
{
    law_scan_rows_unique(g, reached, want, sequential, 0, num_nodes, rows_a, rows_b);
    law_rows_fix_fields(rows_a, a, b);
}

/// Where all reachable nodes are directories, reading front to back gives the same
/// directory map as seeking.
pub proof fn law_scan_modes_agree(
    g: GraphModel,
    reached: Set<int>,
    want: Set<int>,
    num_nodes: usize,
    m: Map<u64, Seq<Entry>>,
)
    requires
        forall|n: usize|
            reached.contains(n as int) ==> #[trigger] (g.node_type)(n) == NodeType::Directory,
    ensures
        hydrated(g, reached, want, true, num_nodes, m) <==> hydrated(
            g,
            reached,
            want,
            false,
            num_nodes,
            m,
        ),
{
    assert forall|n: usize| found(g, reached, want, true, n) <==> #[trigger] found(
        g,
        reached,
        want,
        false,
        n,
    ) by {
        if reached.contains(n as int) {
            assert((g.node_type)(n) == NodeType::Directory);
        }
    }
    if hydrated(g, reached, want, true, num_nodes, m) {
        assert forall|d: u64| {
            &&& #[trigger] m.contains_key(d) <==> d < num_nodes && found(
                g,
                reached,
                want,
                false,
                d as usize,
            )
            &&& m.contains_key(d) ==> row_is(m[d], dir_entries(g, want, d as usize))
        } by {
            assert(found(g, reached, want, true, d as usize) <==> found(
                g,
                reached,
                want,
                false,
                d as usize,
            ));
        }
    }
    if hydrated(g, reached, want, false, num_nodes, m) {
        assert forall|d: u64| {
            &&& #[trigger] m.contains_key(d) <==> d < num_nodes && found(
                g,
                reached,
                want,
                true,
                d as usize,
            )
            &&& m.contains_key(d) ==> row_is(m[d], dir_entries(g, want, d as usize))
        } by {
            assert(found(g, reached, want, true, d as usize) <==> found(
                g,
                reached,
                want,
                false,
                d as usize,
            ));
        }
    }
}

/// All that is reached from directories is a directory.
pub proof fn law_reached_are_directories(g: GraphModel, roots: Set<usize>, node: usize)
    requires
        forall|r: usize| #[trigger] roots.contains(r) ==> (g.node_type)(r) == NodeType::Directory,
        reach(g, roots, Set::empty()).contains(node as int),
    ensures
        (g.node_type)(node) == NodeType::Directory,
{
    let none = Set::<int>::empty();
    assert((node as int) as usize == node);
    let steps = choose|steps: nat| reached_in(g, roots, none, node, steps);
    assert(reached_in(g, roots, none, node, steps));
}

/// The roots are reached, and so is every directory that follows one that is reached.
pub proof fn law_reach_closed(g: GraphModel, roots: Set<usize>, u: usize, v: usize)
    ensures
        roots.contains(v) ==> reach(g, roots, Set::empty()).contains(v as int),
        reach(g, roots, Set::empty()).contains(u as int) && (g.succ)(u).contains(v) && (
        g.node_type)(v) == NodeType::Directory ==> reach(g, roots, Set::empty()).contains(v as int),
{
    let none = Set::<int>::empty();
    if roots.contains(v) {
        assert(reached_in(g, roots, none, v, 0));
        assert(is_reached(g, roots, none, v));
        assert((v as int) as usize == v);
    }
    if reach(g, roots, none).contains(u as int) && (g.succ)(u).contains(v) && (g.node_type)(v)
        == NodeType::Directory {
        lemma_reach_step(g, roots, u, v);
    }
}

proof fn lemma_reach_least(
    g: GraphModel,
    roots: Set<usize>,
    set: Set<int>,
    node: usize,
    steps: nat,
)
    requires
        forall|r: usize| #[trigger] roots.contains(r) ==> set.contains(r as int),
        forall|u: usize, v: usize|
            set.contains(u as int) && #[trigger] (g.succ)(u).contains(v) && (g.node_type)(v)
                == NodeType::Directory ==> set.contains(v as int),
        reached_in(g, roots, Set::empty(), node, steps),
    ensures
        set.contains(node as int),
    decreases steps,
{
    if steps > 0 {
        let m = choose|m: usize| #[trigger]
            (g.succ)(m).contains(node) && reached_in(
                g,
                roots,
                Set::empty(),
                m,
                (steps - 1) as nat,
            );
        lemma_reach_least(g, roots, set, m, (steps - 1) as nat);
    }
}

/// Nothing else is reached: every set that holds the roots, and with a node the directories
/// that follow it, holds all that is reached.
pub proof fn law_reach_least(g: GraphModel, roots: Set<usize>, set: Set<int>)
    requires
        forall|r: usize| #[trigger] roots.contains(r) ==> set.contains(r as int),
        forall|u: usize, v: usize|
            set.contains(u as int) && #[trigger] (g.succ)(u).contains(v) && (g.node_type)(v)
                == NodeType::Directory ==> set.contains(v as int),
    ensures
        reach(g, roots, Set::empty()).subset_of(set),
{
    assert forall|n: int| reach(g, roots, Set::empty()).contains(n) implies set.contains(n) by {
        let node = n as usize;
        let steps = choose|steps: nat| reached_in(g, roots, Set::empty(), node, steps);
        lemma_reach_least(g, roots, set, node, steps);
    }
}

proof fn lemma_reached_weaken(
    g: GraphModel,
    few: Set<usize>,
    many: Set<usize>,
    marked: Set<int>,
    node: usize,
    steps: nat,
)
    requires
        few.subset_of(many),
        reached_in(g, few, marked, node, steps),
    ensures
        reached_in(g, many, Set::empty(), node, steps),
    decreases steps,
{
    if steps > 0 {
        let m = choose|m: usize| #[trigger]
            (g.succ)(m).contains(node) && reached_in(g, few, marked, m, (steps - 1) as nat);
        lemma_reached_weaken(g, few, many, marked, m, (steps - 1) as nat);
        assert((g.succ)(m).contains(node) && reached_in(
            g,
            many,
            Set::empty(),
            m,
            (steps - 1) as nat,
        ));
    }
}

proof fn lemma_reach_in_parts(
    g: GraphModel,
    a: Set<usize>,
    b: Set<usize>,
    node: usize,
    steps: nat,
)
    requires
        reached_in(g, a.union(b), Set::empty(), node, steps),
    ensures
        reach(g, b, reach(g, a, Set::empty())).contains(node as int),
    decreases steps,
{
    let none = Set::<int>::empty();
    let first = reach(g, a, none);
    assert((node as int) as usize == node);
    if steps == 0 {
        if a.contains(node) {
            law_reach_closed(g, a, node, node);
        } else if !first.contains(node as int) {
            assert(reached_in(g, b, first, node, 0));
            assert(is_reached(g, b, first, node));
        }
    } else {
        let m = choose|m: usize| #[trigger]
            (g.succ)(m).contains(node) && reached_in(g, a.union(b), none, m, (steps - 1) as nat);
        lemma_reach_in_parts(g, a, b, m, (steps - 1) as nat);
        if first.contains(m as int) {
            lemma_reach_step(g, a, m, node);
        } else if !first.contains(node as int) {
            assert((m as int) as usize == m);
            let k = choose|k: nat| reached_in(g, b, first, m, k);
            assert(reached_in(g, b, first, node, k + 1)) by {
                assert((g.succ)(m).contains(node) && reached_in(
                    g,
                    b,
                    first,
                    m,
                    ((k + 1) - 1) as nat,
                ));
            }
            assert(is_reached(g, b, first, node));
        }
    }
}

/// Marking from some roots and then from others marks what marking from all of them at once
/// does: what is marked already need not be walked again.
pub proof fn law_reach_in_parts(g: GraphModel, a: Set<usize>, b: Set<usize>)
    ensures
        reach(g, b, reach(g, a, Set::empty())) == reach(g, a.union(b), Set::empty()),
{
    let none = Set::<int>::empty();
    let first = reach(g, a, none);
    let both = reach(g, a.union(b), none);
    let parts = reach(g, b, first);
    assert forall|n: int| parts.contains(n) implies both.contains(n) by {
        let node = n as usize;
        if first.contains(n) {
            let steps = choose|steps: nat| reached_in(g, a, none, node, steps);
            lemma_reached_weaken(g, a, a.union(b), none, node, steps);
            assert(is_reached(g, a.union(b), none, node));
        } else {
            let steps = choose|steps: nat| reached_in(g, b, first, node, steps);
            lemma_reached_weaken(g, b, a.union(b), first, node, steps);
            assert(is_reached(g, a.union(b), none, node));
        }
    }
    assert forall|n: int| both.contains(n) implies parts.contains(n) by {
        let node = n as usize;
        let steps = choose|steps: nat| reached_in(g, a.union(b), none, node, steps);
        lemma_reach_in_parts(g, a, b, node, steps);
    }
    assert(parts =~= both);
}

/// Every id on the path of a row is requested, so that the directory map has its entries,
/// or it is missing.
pub proof fn law_path_ids_requested(
    g: GraphModel,
    distinct: Set<Seq<u8>>,
    path: Seq<Seq<u8>>,
    i: int,
)
    requires
        0 <= i < path.len(),
    ensures
        ({
            let fid = fids_of(ids_below(g, distinct, N_LABELS as int), path)[i];
            fid == FID_MISSING || requested_below(g, distinct, N_LABELS as int).contains(fid as int)
        }),
{
    law_ids_have_names(g, distinct, N_LABELS as int, path[i]);
}

/// A walk has a leaf only where it succeeds.
pub proof fn law_leaf_only_where_resolved(m: Map<u64, Seq<Entry>>, row: SeedRow)
    ensures
        walk(m, row).1 != Status::Resolved ==> walk(m, row).0 == 0,
{
    lemma_leaf(m, row.root, row.path);
}

proof fn lemma_leaf(m: Map<u64, Seq<Entry>>, cur: u64, path: Seq<u64>)
    ensures
        walk_from(m, cur, path).1 != Status::Resolved ==> walk_from(m, cur, path).0 == 0,
    decreases path.len(),
{
    if path.len() > 1 {
        if let Some((child, ty)) = lookup_in(m, cur, path[0]) {
            lemma_leaf(m, child, path.drop_first());
        }
    }
}

/// The nodes that are marked, one after the other.
pub open spec fn marks(nodes: Seq<usize>) -> Set<int>
    decreases nodes.len(),
{
    if nodes.len() == 0 {
        Set::empty()
    } else {
        marks(nodes.drop_last()).insert(nodes.last() as int)
    }
}

/// How often marking one node after the other finds it clear.
pub open spec fn first_marks(nodes: Seq<usize>) -> nat
    decreases nodes.len(),
{
    if nodes.len() == 0 {
        0
    } else {
        first_marks(nodes.drop_last()) + if marks(nodes.drop_last()).contains(
            nodes.last() as int,
        ) {
            0nat
        } else {
            1nat
        }
    }
}

/// As many bits are set as there are distinct nodes among those that were marked, and as
/// often as marking found its bit clear; not more than there are nodes.
pub proof fn law_marks_counted(nodes: Seq<usize>, num_nodes: usize)
    requires
        forall|i: int| 0 <= i < nodes.len() ==> #[trigger] nodes[i] < num_nodes,
    ensures
        marks(nodes).finite(),
        marks(nodes).len() == first_marks(nodes),
        marks(nodes).len() == nodes.to_set().len(),
        marks(nodes).len() <= num_nodes,
        forall|n: int| #[trigger]
            marks(nodes).contains(n) <==> 0 <= n < num_nodes && nodes.contains(n as usize),
{
    lemma_marks(nodes, num_nodes);
    let below = vstd::set_lib::set_int_range(0, num_nodes as int);
    vstd::set_lib::lemma_int_range(0, num_nodes as int);
    assert(marks(nodes).subset_of(below));
    vstd::set_lib::lemma_len_subset(marks(nodes), below);
    let ids = nodes.to_set();
    assert(ids.finite()) by {
        nodes.lemma_cardinality_of_set();
    }
    let as_int = |n: usize| n as int;
    assert(ids.map(as_int) =~= marks(nodes)) by {
        assert forall|n: int| marks(nodes).contains(n) implies #[trigger] ids.map(
            as_int,
        ).contains(n) by {
            assert(ids.contains(n as usize) && as_int(n as usize) == n);
        }
    }
    assert(vstd::relations::injective(as_int));
    vstd::set_lib::lemma_map_size(ids, marks(nodes), as_int);
}

proof fn lemma_marks(nodes: Seq<usize>, num_nodes: usize)
    requires
        forall|i: int| 0 <= i < nodes.len() ==> #[trigger] nodes[i] < num_nodes,
    ensures
        marks(nodes).finite(),
        marks(nodes).len() == first_marks(nodes),
        forall|n: int| #[trigger]
            marks(nodes).contains(n) <==> 0 <= n < num_nodes && nodes.contains(n as usize),
    decreases nodes.len(),
{
    if nodes.len() > 0 {
        let before = nodes.drop_last();
        let last = nodes.last();
        assert forall|i: int| 0 <= i < before.len() implies #[trigger] before[i] < num_nodes by {
            assert(before[i] == nodes[i]);
        }
        lemma_marks(before, num_nodes);
        assert(nodes[nodes.len() - 1] == last);
        assert forall|n: int| #[trigger]
            marks(nodes).contains(n) <==> 0 <= n < num_nodes && nodes.contains(n as usize) by {
            if before.contains(n as usize) {
                let k = choose|k: int| 0 <= k < before.len() && before[k] == n as usize;
                assert(nodes[k] == n as usize);
            }
            if nodes.contains(n as usize) {
                let k = choose|k: int| 0 <= k < nodes.len() && nodes[k] == n as usize;
                if k < before.len() {
                    assert(before[k] == n as usize);
                }
            }
        }
    }
}

/// No two statuses have the same number, and no number exceeds five: reading a status back
/// from its number gives that status.
pub proof fn law_status_codes(a: Status, b: Status)
    ensures
        status_code(a) <= 5,
        status_code(a) == status_code(b) ==> a == b,
{
}

/// Completing the SWHID of a revision that is complete changes nothing.
pub proof fn law_rev_id_idempotent(id: Seq<char>)
    ensures
        full_rev_id(full_rev_id(id)) == full_rev_id(id),
{
    let prefix = "swh:1:rev:"@;
    assert((prefix + id).subrange(0, prefix.len() as int) =~= prefix);
}

/// In the output, the id of a row is the SWHID of its revision, where the candidates have
/// that SWHID, in full, in both columns.
pub proof fn law_output_id_is_rev(
    g: GraphModel,
    batch: PassThrough,
    i: int,
    leaf: u64,
    status: u8,
)
    requires
        batch.id@[i]@ == batch.rev_swhid@[i]@,
        "swh:1:rev:"@.is_prefix_of(batch.rev_swhid@[i]@),
    ensures
        batch.output(g, i, leaf, status).id == batch.output(g, i, leaf, status).rev_swhid,
{
}

/// A row of the output has a content just where its status is `ok`.
pub proof fn law_output_status(
    g: GraphModel,
    batch: PassThrough,
    i: int,
    leaf: u64,
    status: u8,
)
    ensures
        ({
            let row = batch.output(g, i, leaf, status);
            &&& row.status == "ok"@ || row.status == "path_not_found"@
            &&& row.status == "ok"@ ==> row.cnt_swhid == (g.swhid)(leaf as usize)
            &&& row.status != "ok"@ ==> row.cnt_swhid.len() == 0 && row.qualified.len() == 0
            &&& row.status == "ok"@ <==> status == status_code(Status::Resolved)
        }),
{
    reveal_strlit("ok");
    reveal_strlit("path_not_found");
    assert("ok"@.len() != "path_not_found"@.len());
}

/// What stands between the slashes of a path has no slash in it.
proof fn lemma_pieces(path: Seq<char>)
    ensures
        pieces(path).len() > 0,
        forall|i: int, j: int|
            #![trigger pieces(path)[i][j]]
            0 <= i < pieces(path).len() && 0 <= j < pieces(path)[i].len() ==> pieces(path)[i][j]
                != '/',
    decreases path.len(),
{
    if path.len() > 0 {
        lemma_pieces(path.drop_last());
        let before = pieces(path.drop_last());
        let after = pieces(path);
        assert forall|i: int, j: int|
            #![trigger after[i][j]]
            0 <= i < after.len() && 0 <= j < after[i].len() implies after[i][j] != '/' by {
            if i < before.len() {
                assert(i < before.len() - 1 ==> after[i] == before[i]);
                if j < before[i].len() {
                    assert(before[i][j] != '/');
                }
            }
        }
    }
}

/// No component of a path is empty, and none has a slash in it.
pub proof fn law_components(path: Seq<char>, i: int)
    requires
        0 <= i < components(path).len(),
    ensures
        components(path)[i].len() > 0,
        forall|j: int| 0 <= j < components(path)[i].len() ==> components(path)[i][j] != '/',
{
    lemma_pieces(path);
    let all = pieces(path);
    let piece = components(path)[i];
    all.lemma_filter_pred(non_empty(), i);
    assert(all.filter(non_empty()).contains(piece));
    all.lemma_filter_contains_rev(non_empty(), piece);
    let k = choose|k: int| 0 <= k < all.len() && all[k] == piece;
    assert forall|j: int| 0 <= j < piece.len() implies piece[j] != '/' by {
        assert(pieces(path)[k][j] != '/');
    }
}

/// The number of columns before one of them, where the columns ascend, is its position.
proof fn lemma_rank_sorted(sorted: Seq<usize>, i: int, n: int)
    requires
        ascends(sorted),
        0 <= i < sorted.len(),
        0 <= n <= sorted.len(),
    ensures
        rank(sorted.take(n), sorted[i]) == (if n < i {
            n
        } else {
            i
        }),
    decreases n,
{
    if n > 0 {
        lemma_rank_sorted(sorted, i, n - 1);
        assert(sorted.take(n).drop_last() =~= sorted.take(n - 1));
        assert(sorted.take(n).last() == sorted[n - 1]);
        if n - 1 < i {
            assert(sorted[n - 1] < sorted[i]);
        } else if n - 1 > i {
            assert(sorted[i] < sorted[n - 1]);
        }
    }
}

/// The columns that are less than `x`.
spec fn below(leaves: Seq<usize>, x: usize) -> Set<usize> {
    leaves.to_set().filter(|y: usize| y < x)
}

proof fn lemma_rank_is_count(leaves: Seq<usize>, x: usize)
    requires
        leaves.no_duplicates(),
    ensures
        below(leaves, x).finite(),
        rank(leaves, x) == below(leaves, x).len(),
    decreases leaves.len(),
{
    if leaves.len() == 0 {
        assert(below(leaves, x) =~= Set::empty());
    } else {
        let before = leaves.drop_last();
        let last = leaves.last();
        lemma_rank_is_count(before, x);
        assert forall|y: usize| #[trigger] leaves.contains(y) <==> before.contains(y) || y
            == last by {
            if before.contains(y) {
                let k = choose|k: int| 0 <= k < before.len() && before[k] == y;
                assert(leaves[k] == y);
            }
            if leaves.contains(y) {
                let k = choose|k: int| 0 <= k < leaves.len() && leaves[k] == y;
                if k < before.len() {
                    assert(before[k] == y);
                }
            }
            assert(leaves[leaves.len() - 1] == last);
        }
        assert(!before.contains(last)) by {
            if before.contains(last) {
                let k = choose|k: int| 0 <= k < before.len() && before[k] == last;
                assert(leaves[k] == leaves[leaves.len() - 1]);
            }
        }
        if last < x {
            assert(below(leaves, x) =~= below(before, x).insert(last));
        } else {
            assert(below(leaves, x) =~= below(before, x));
        }
    }
}

/// The rank of a column among the columns that are read is its position among them in file
/// order.
pub proof fn law_rank_is_position(leaves: Seq<usize>, sorted: Seq<usize>, x: usize)
    requires
        leaves.no_duplicates(),
        lists(sorted, leaves.to_set()),
        leaves.contains(x),
    ensures
        rank(leaves, x) < sorted.len(),
        sorted[rank(leaves, x) as int] == x,
{
    assert(leaves.to_set().contains(x));
    let i = choose|i: int| 0 <= i < sorted.len() && sorted[i] == x;
    assert(sorted.no_duplicates());
    lemma_rank_is_count(leaves, x);
    lemma_rank_is_count(sorted, x);
    assert(below(leaves, x) =~= below(sorted, x)) by {
        assert forall|y: usize| leaves.to_set().contains(y) <==> #[trigger] sorted.to_set().contains(
            y,
        ) by {
            assert(sorted.contains(y) <==> leaves.to_set().contains(y));
        }
    }
    lemma_rank_sorted(sorted, i, sorted.len() as int);
    assert(sorted.take(sorted.len() as int) =~= sorted);
}

} // verus!
