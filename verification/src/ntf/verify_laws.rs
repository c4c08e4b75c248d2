//! What the direct walk finds and what its check tells, in terms of the graph and the rows.

use vstd::prelude::*;

use crate::ntf::counting::{how_many, lemma_how_many, lemma_how_many_grows, lemma_how_many_none};
use crate::ntf::graph::{EdgeLabel, GraphModel, NodeType};
use crate::ntf::provenance::root_dir;
use crate::ntf::text::component_bytes;
use crate::ntf::verify::{
    child_named, count_of, direct, direct_from, direct_leaf, distinct_statuses,
    has_label, report, sample_view, taken, OutputBatch, Report, Row, StatusCount,
};

verus! {

/// Label `j` of arc `i` is a directory entry with the given name.
pub open spec fn is_entry(
    g: GraphModel,
    arcs: Seq<(usize, Seq<EdgeLabel>)>,
    name: Seq<u8>,
    i: int,
    j: int,
) -> bool {
    &&& 0 <= i < arcs.len()
    &&& 0 <= j < arcs[i].1.len()
    &&& arcs[i].1[j] is DirEntry
    &&& (g.label_name)(arcs[i].1[j]->name) == name
}

/// The child with a name is on the first arc that has a directory entry with the name.
pub proof fn law_child_named(
    g: GraphModel,
    arcs: Seq<(usize, Seq<EdgeLabel>)>,
    name: Seq<u8>,
    i: int,
    j: int,
)
    ensures
        is_entry(g, arcs, name, i, j) && (forall|a: int, b: int|
            a < i ==> !#[trigger] is_entry(g, arcs, name, a, b)) ==> child_named(g, arcs, name)
            == Some(arcs[i].0),
        (forall|a: int, b: int| !#[trigger] is_entry(g, arcs, name, a, b)) ==> child_named(
            g,
            arcs,
            name,
        ) is None,
    decreases arcs.len(),
{
    if arcs.len() > 0 {
        let tail = arcs.drop_first();
        law_child_named(g, tail, name, i - 1, j);
        assert forall|a: int, b: int| #[trigger] is_entry(g, tail, name, a, b) implies is_entry(
            g,
            arcs,
            name,
            a + 1,
            b,
        ) by {
            assert(tail[a] == arcs[a + 1]);
        }
        if has_label(g, arcs[0].1, name) {
            let k = choose|k: int|
                0 <= k < arcs[0].1.len() && (#[trigger] arcs[0].1[k]) is DirEntry && (g.label_name)(
                    arcs[0].1[k]->name,
                ) == name;
            assert(is_entry(g, arcs, name, 0, k));
        } else {
            assert forall|b: int| !#[trigger] is_entry(g, arcs, name, 0, b) by {
                if is_entry(g, arcs, name, 0, b) {
                    assert(arcs[0].1[b] is DirEntry);
                }
            }
            if is_entry(g, arcs, name, i, j) {
                assert(i > 0);
                assert(tail[i - 1] == arcs[i]);
                assert(is_entry(g, tail, name, i - 1, j));
            }
        }
    }
}

/// `nodes` lead from the root directory along the names: to directories, and at last to a content.
pub open spec fn is_trail(
    g: GraphModel,
    root: usize,
    names: Seq<Seq<u8>>,
    nodes: Seq<usize>,
) -> bool {
    &&& names.len() > 0
    &&& nodes.len() == names.len() + 1
    &&& nodes[0] == root
    &&& forall|k: int|
        0 <= k < names.len() ==> child_named(g, (g.labels)(nodes[k]), #[trigger] names[k]) == Some(
            nodes[k + 1],
        )
    &&& forall|k: int|
        0 < k < names.len() ==> (g.node_type)(#[trigger] nodes[k]) == NodeType::Directory
    &&& (g.node_type)(nodes.last()) == NodeType::Content
}

/// A path leads from a revision to a content just where the graph has the revision, and from its
/// root directory the names on the path lead through directories to that content.
pub proof fn law_direct_leaf(g: GraphModel, rev: Seq<char>, rel_path: Seq<char>, leaf: usize)
    ensures
        direct_leaf(g, rev, rel_path) == Some(leaf) <==> exists|r: usize, root: usize, nodes: Seq<
            usize,
        >|
            (g.node_id)(rev) == Some(r) && root_dir(g, r) == Some(root) && #[trigger] ends_at(
                g,
                r,
                root,
                component_bytes(rel_path),
                nodes,
                leaf,
            ),
        direct(g, rev, rel_path) == (match direct_leaf(g, rev, rel_path) {
            Some(l) => Some((g.swhid)(l)),
            None => None,
        }),
{
    let names = component_bytes(rel_path);
    if direct_leaf(g, rev, rel_path) == Some(leaf) {
        let r = (g.node_id)(rev)->0;
        let root = root_dir(g, r)->0;
        let nodes = lemma_trail_of(g, root, names, leaf);
        assert(ends_at(g, r, root, names, nodes, leaf));
    }
    if exists|r: usize, root: usize, nodes: Seq<usize>|
        (g.node_id)(rev) == Some(r) && root_dir(g, r) == Some(root) && #[trigger] ends_at(
            g,
            r,
            root,
            names,
            nodes,
            leaf,
        ) {
        let (r, root, nodes) = choose|r: usize, root: usize, nodes: Seq<usize>|
            (g.node_id)(rev) == Some(r) && root_dir(g, r) == Some(root) && #[trigger] ends_at(
                g,
                r,
                root,
                names,
                nodes,
                leaf,
            );
        lemma_trail_leads(g, root, names, nodes);
    }
}

/// The trail from the root directory of revision `r` ends at `leaf`.
pub open spec fn ends_at(
    g: GraphModel,
    r: usize,
    root: usize,
    names: Seq<Seq<u8>>,
    nodes: Seq<usize>,
    leaf: usize,
) -> bool {
    is_trail(g, root, names, nodes) && nodes.last() == leaf
}

proof fn lemma_trail_of(g: GraphModel, cur: usize, names: Seq<Seq<u8>>, leaf: usize) -> (nodes: Seq<
    usize,
>)
    requires
        direct_from(g, cur, names) == Some(leaf),
    ensures
        is_trail(g, cur, names, nodes),
        nodes.last() == leaf,
    decreases names.len(),
{
    let child = child_named(g, (g.labels)(cur), names[0])->0;
    if names.len() == 1 {
        seq![cur, child]
    } else {
        let tail = names.drop_first();
        let rest = lemma_trail_of(g, child, tail, leaf);
        let nodes = seq![cur] + rest;
        assert forall|k: int| 0 <= k < names.len() implies child_named(
            g,
            (g.labels)(nodes[k]),
            #[trigger] names[k],
        ) == Some(nodes[k + 1]) by {
            if k > 0 {
                assert(names[k] == tail[k - 1]);
                assert(nodes[k] == rest[k - 1]);
            }
        }
        assert forall|k: int| 0 < k < names.len() implies (g.node_type)(#[trigger] nodes[k])
            == NodeType::Directory by {
            assert(nodes[k] == rest[k - 1]);
        }
        nodes
    }
}

proof fn lemma_trail_leads(g: GraphModel, cur: usize, names: Seq<Seq<u8>>, nodes: Seq<usize>)
    requires
        is_trail(g, cur, names, nodes),
    ensures
        direct_from(g, cur, names) == Some(nodes.last()),
    decreases names.len(),
{
    assert(child_named(g, (g.labels)(nodes[0]), names[0]) == Some(nodes[1]));
    if names.len() > 1 {
        let tail = names.drop_first();
        let rest = nodes.drop_first();
        assert((g.node_type)(nodes[1]) == NodeType::Directory);
        assert forall|k: int| 0 <= k < tail.len() implies child_named(
            g,
            (g.labels)(rest[k]),
            #[trigger] tail[k],
        ) == Some(rest[k + 1]) by {
            assert(tail[k] == names[k + 1]);
        }
        assert forall|k: int| 0 < k < tail.len() implies (g.node_type)(#[trigger] rest[k])
            == NodeType::Directory by {
            assert(rest[k] == nodes[k + 1]);
        }
        lemma_trail_leads(g, rest[0], tail, rest);
    }
}

/// The direct walk of row `i` finds the content that the row has.
pub open spec fn row_matches(g: GraphModel, rows: Seq<Row>) -> spec_fn(int) -> bool {
    |i: int| direct(g, rows[i].rev_swhid@, rows[i].rel_path@) == Some(rows[i].cnt_swhid@)
}

/// The direct walk of row `i` finds another content than the row has.
pub open spec fn row_differs(g: GraphModel, rows: Seq<Row>) -> spec_fn(int) -> bool {
    |i: int|
        direct(g, rows[i].rev_swhid@, rows[i].rel_path@) is Some && direct(
            g,
            rows[i].rev_swhid@,
            rows[i].rel_path@,
        ) != Some(rows[i].cnt_swhid@)
}

/// The direct walk of row `i` finds nothing.
pub open spec fn row_lost(g: GraphModel, rows: Seq<Row>) -> spec_fn(int) -> bool {
    |i: int| direct(g, rows[i].rev_swhid@, rows[i].rel_path@) is None
}

/// Row `i` does not match.
pub open spec fn row_fails(g: GraphModel, rows: Seq<Row>) -> spec_fn(int) -> bool {
    |i: int| direct(g, rows[i].rev_swhid@, rows[i].rel_path@) != Some(rows[i].cnt_swhid@)
}

/// The report counts the rows whose content the direct walk finds, those for which it finds
/// another, and those for which it finds none; it has an example for each row that fails, up to
/// ten.
pub proof fn law_report(g: GraphModel, rows: Seq<Row>, n: int)
    requires
        0 <= n <= rows.len(),
    ensures
        report(g, rows, n).matched == how_many(row_matches(g, rows), n),
        report(g, rows, n).mismatched == how_many(row_differs(g, rows), n),
        report(g, rows, n).unresolved == how_many(row_lost(g, rows), n),
        report(g, rows, n).matched + report(g, rows, n).mismatched + report(g, rows, n).unresolved
            == n,
        report(g, rows, n).examples.len() == (if how_many(row_fails(g, rows), n) < 10 {
            how_many(row_fails(g, rows), n)
        } else {
            10
        }),
    decreases n,
{
    lemma_how_many(row_matches(g, rows), n);
    lemma_how_many(row_differs(g, rows), n);
    lemma_how_many(row_lost(g, rows), n);
    lemma_how_many(row_fails(g, rows), n);
    if n > 0 {
        law_report(g, rows, n - 1);
    }
}

/// A report that passed says of every row of the sample that the direct walk finds its content.
pub proof fn law_passed(g: GraphModel, rows: Seq<Row>, i: int)
    requires
        report(g, rows, rows.len() as int).mismatched == 0,
        report(g, rows, rows.len() as int).unresolved == 0,
        0 <= i < rows.len(),
    ensures
        direct(g, rows[i].rev_swhid@, rows[i].rel_path@) == Some(rows[i].cnt_swhid@),
{
    let n = rows.len() as int;
    law_report(g, rows, n);
    lemma_how_many_none(row_differs(g, rows), n);
    lemma_how_many_none(row_lost(g, rows), n);
    assert(!row_differs(g, rows)(i));
    assert(!row_lost(g, rows)(i));
}

/// One row that fails keeps the report from passing.
pub proof fn law_failure_is_seen(g: GraphModel, rows: Seq<Row>, i: int)
    requires
        0 <= i < rows.len(),
        direct(g, rows[i].rev_swhid@, rows[i].rel_path@) != Some(rows[i].cnt_swhid@),
    ensures
        report(g, rows, rows.len() as int).mismatched > 0 || report(
            g,
            rows,
            rows.len() as int,
        ).unresolved > 0,
        report(g, rows, rows.len() as int).matched < rows.len(),
{
    let n = rows.len() as int;
    law_report(g, rows, n);
    lemma_how_many_none(row_differs(g, rows), n);
    lemma_how_many_none(row_lost(g, rows), n);
    assert(row_differs(g, rows)(i) || row_lost(g, rows)(i));
}

/// The examples are those of the rows that fail, in their order: each tells the revision, the
/// path and the content that the row has, and what the direct walk found.
pub proof fn law_example(g: GraphModel, rows: Seq<Row>, n: int, i: int)
    requires
        0 <= i < n <= rows.len(),
        row_fails(g, rows)(i),
        how_many(row_fails(g, rows), i) < 10,
    ensures
        report(g, rows, n).examples[how_many(row_fails(g, rows), i) as int] == (match direct(
            g,
            rows[i].rev_swhid@,
            rows[i].rel_path@,
        ) {
            Some(cnt) => "MISMATCH rev="@ + rows[i].rev_swhid@ + " path="@ + rows[i].rel_path@
                + " pipeline="@ + rows[i].cnt_swhid@ + " direct="@ + cnt,
            None => "DIRECT-UNRESOLVED rev="@ + rows[i].rev_swhid@ + " path="@ + rows[i].rel_path@
                + " pipeline="@ + rows[i].cnt_swhid@,
        }),
    decreases n,
{
    let fails = row_fails(g, rows);
    law_report(g, rows, n);
    law_report(g, rows, n - 1);
    lemma_how_many(fails, n);
    if i < n - 1 {
        law_example(g, rows, n - 1, i);
        lemma_how_many_grows(fails, i, n - 1);
        let k = how_many(fails, i) as int;
        assert(k < report(g, rows, n - 1).examples.len());
        assert(report(g, rows, n).examples[k] == report(g, rows, n - 1).examples[k]);
    }
}

/// What a report holds is what its fields hold.
pub proof fn law_report_fields(r: Report)
    ensures
        r@.matched == r.matched,
        r@.mismatched == r.mismatched,
        r@.unresolved == r.unresolved,
        r@.examples.len() == r.examples@.len(),
        forall|i: int|
            0 <= i < r.examples@.len() ==> #[trigger] r@.examples[i] == r.examples@[i]@,
{
}

/// The count of a status is the one beside it; a status that is not there counts zero.
pub proof fn law_count_of(hist: Seq<StatusCount>, status: Seq<char>, i: int)
    requires
        distinct_statuses(hist),
    ensures
        0 <= i < hist.len() && hist[i].status@ == status ==> count_of(hist, status)
            == hist[i].count,
        (forall|k: int| 0 <= k < hist.len() ==> (#[trigger] hist[k]).status@ != status)
            ==> count_of(hist, status) == 0,
    decreases hist.len(),
{
    if hist.len() > 0 {
        let before = hist.drop_last();
        law_count_of(before, status, i);
        assert(hist[hist.len() - 1] == hist.last());
        assert forall|k: int| 0 <= k < before.len() implies #[trigger] before[k] == hist[k] by {}
        if 0 <= i < hist.len() - 1 && hist[i].status@ == status {
            assert(before[i] == hist[i]);
            assert(hist[i].status@ != hist[hist.len() - 1].status@);
        }
    }
}

/// Row `i` has the given status.
pub open spec fn has_status(batch: OutputBatch, status: Seq<char>) -> spec_fn(int) -> bool {
    |i: int| batch.status@[i]@ == status
}

/// A status is counted once for each row that has it, and the rows whose path was found are
/// taken, as they stand and in their order.
pub proof fn law_batch_rows(batch: OutputBatch, status: Seq<char>, n: int, i: int)
    requires
        0 <= i < n <= batch.status@.len(),
    ensures
        batch.status_count(status, n) == how_many(has_status(batch, status), n),
        batch.ok_rows(n).len() == how_many(has_status(batch, "ok"@), n),
        batch.status@[i]@ == "ok"@ ==> batch.ok_rows(n)[how_many(
            has_status(batch, "ok"@),
            i,
        ) as int] == (batch.rev_swhid@[i]@, batch.rel_path@[i]@, batch.cnt_swhid@[i]@),
    decreases n,
{
    let ok = has_status(batch, "ok"@);
    lemma_batch_counts(batch, status, n);
    lemma_batch_counts(batch, status, n - 1);
    lemma_how_many(ok, n);
    if i < n - 1 {
        law_batch_rows(batch, status, n - 1, i);
        lemma_how_many_grows(ok, i, n - 1);
    }
}

proof fn lemma_batch_counts(batch: OutputBatch, status: Seq<char>, n: int)
    requires
        0 <= n <= batch.status@.len(),
    ensures
        batch.status_count(status, n) == how_many(has_status(batch, status), n),
        batch.ok_rows(n).len() == how_many(has_status(batch, "ok"@), n),
    decreases n,
{
    lemma_how_many(has_status(batch, status), n);
    lemma_how_many(has_status(batch, "ok"@), n);
    if n > 0 {
        lemma_batch_counts(batch, status, n - 1);
    }
}

/// A sample takes rows, in their order, until it has `n`; what it has it keeps.
pub proof fn law_taken<T>(before: Seq<T>, oks: Seq<T>, n: int, after: Seq<T>)
    requires
        n >= 0,
        taken(before, oks, n, after),
    ensures
        before.len() >= n ==> after == before,
        before.len() < n && before.len() + oks.len() >= n ==> after.len() == n,
        before.len() + oks.len() <= n ==> after == before + oks,
        forall|i: int| 0 <= i < before.len() ==> #[trigger] after[i] == before[i],
        forall|i: int|
            before.len() <= i < after.len() ==> #[trigger] after[i] == oks[i - before.len()],
{
    if before.len() >= n {
        assert(oks.take(0) =~= Seq::<T>::empty());
        assert(after =~= before);
    }
    if before.len() + oks.len() <= n {
        if before.len() < n || oks.len() == 0 {
            assert(oks.take(oks.len() as int) =~= oks);
        }
        assert(after =~= before + oks);
    }
}

/// The rows of a sample as they stand.
pub proof fn law_sample_rows(rows: Seq<Row>, i: int)
    requires
        0 <= i < rows.len(),
    ensures
        sample_view(rows).len() == rows.len(),
        sample_view(rows)[i] == (rows[i].rev_swhid@, rows[i].rel_path@, rows[i].cnt_swhid@),
{
}

} // verus!
