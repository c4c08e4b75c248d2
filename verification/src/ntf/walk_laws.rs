//! What the directory map has, where a walk over it ends and what is written of it, in terms of
//! the arcs of the graph and the columns of the candidates.

use vstd::prelude::*;

use crate::ntf::cands::{flat_rows, CandsColumns};
use crate::ntf::common::{lookup_in, status_code, Seeds, Status};
use crate::ntf::entries::{
    arc_entries, arcs_entries, first_named, lemma_first_named_add, Entry,
};
use crate::ntf::graph::{type_code, EdgeLabel, GraphModel, NodeType};
use crate::ntf::hydrate::{found, hydrated};
use crate::ntf::laws::law_map_is_exact;
use crate::ntf::scratch::{OutRow, RowText};
use crate::ntf::seeds::SeedRow;
use crate::ntf::text::{full_rev_id, qualified};
use crate::ntf::traverse::{
    outputs, total_rows, walk, walk_from, OutputRow, OutputText, PassThrough,
};

verus! {

/// A step from a directory leads along the first entry of the name in its row; nowhere, where the
/// row has no such entry or the directory has no row.
pub proof fn law_step(m: Map<u64, Seq<Entry>>, dir: u64, fid: u64, i: int)
    ensures
        !m.contains_key(dir) ==> lookup_in(m, dir, fid) is None,
        m.contains_key(dir) && 0 <= i < m[dir].len() && m[dir][i].0 == fid && (forall|k: int|
            0 <= k < i ==> (#[trigger] m[dir][k]).0 != fid) ==> lookup_in(m, dir, fid) == Some(
            (m[dir][i].1, m[dir][i].2),
        ),
        m.contains_key(dir) && (forall|k: int|
            0 <= k < m[dir].len() ==> (#[trigger] m[dir][k]).0 != fid) ==> lookup_in(
            m,
            dir,
            fid,
        ) is None,
{
    if m.contains_key(dir) {
        lemma_first_named(m[dir], fid, i);
    }
}

proof fn lemma_first_named(row: Seq<Entry>, fid: u64, i: int)
    ensures
        0 <= i < row.len() && row[i].0 == fid && (forall|k: int|
            0 <= k < i ==> (#[trigger] row[k]).0 != fid) ==> first_named(row, fid) == Some(
            (row[i].1, row[i].2),
        ),
        (forall|k: int| 0 <= k < row.len() ==> (#[trigger] row[k]).0 != fid) ==> first_named(
            row,
            fid,
        ) is None,
    decreases row.len(),
{
    if row.len() > 0 {
        let tail = row.drop_first();
        lemma_first_named(tail, fid, i - 1);
        assert forall|k: int| 0 <= k < tail.len() implies #[trigger] tail[k] == row[k + 1] by {}
        if 0 < i < row.len() && row[i].0 == fid && (forall|k: int|
            0 <= k < i ==> (#[trigger] row[k]).0 != fid) {
            assert(row[0].0 != fid);
            assert(tail[i - 1] == row[i]);
            assert forall|k: int| 0 <= k < i - 1 implies (#[trigger] tail[k]).0 != fid by {
                assert(tail[k] == row[k + 1]);
            }
        }
        if forall|k: int| 0 <= k < row.len() ==> (#[trigger] row[k]).0 != fid {
            assert(row[0].0 != fid);
            assert forall|k: int| 0 <= k < tail.len() implies (#[trigger] tail[k]).0 != fid by {
                assert(tail[k] == row[k + 1]);
            }
        }
    }
}

/// Label `j` of arc `i` is a directory entry whose name has the given id.
pub open spec fn has_id(arcs: Seq<(usize, Seq<EdgeLabel>)>, fid: u64, i: int, j: int) -> bool {
    &&& 0 <= i < arcs.len()
    &&& 0 <= j < arcs[i].1.len()
    &&& arcs[i].1[j] == (EdgeLabel::DirEntry { name: fid })
}

/// Whether the scan looks at a node: it is a node, it is reached, and, where every directory is
/// read, it is one.
pub open spec fn is_scanned(
    g: GraphModel,
    reached: Set<int>,
    sequential: bool,
    num_nodes: usize,
    dir: u64,
) -> bool {
    &&& dir < num_nodes
    &&& reached.contains(dir as int)
    &&& sequential ==> (g.node_type)(dir as usize) == NodeType::Directory
}

/// A step over the directory map leads, for a requested name in a directory that is scanned, to
/// the child on the first arc with an entry of the name, and tells its type; else nowhere.
pub proof fn law_map_step(
    g: GraphModel,
    reached: Set<int>,
    want: Set<int>,
    sequential: bool,
    num_nodes: usize,
    m: Map<u64, Seq<Entry>>,
    dir: u64,
    fid: u64,
    i: int,
    j: int,
)
    requires
        hydrated(g, reached, want, sequential, num_nodes, m),
    ensures
        ({
            let arcs = (g.labels)(dir as usize);
            let looked = is_scanned(g, reached, sequential, num_nodes, dir) && want.contains(
                fid as int,
            );
            &&& !looked ==> lookup_in(m, dir, fid) is None
            &&& looked && has_id(arcs, fid, i, j) && (forall|a: int, b: int|
                a < i ==> !#[trigger] has_id(arcs, fid, a, b)) ==> lookup_in(m, dir, fid) == Some(
                (
                    arcs[i].0 as u64,
                    match (g.node_type)(arcs[i].0) {
                        NodeType::Content => 0u8,
                        NodeType::Directory => 1u8,
                        NodeType::Origin => 2u8,
                        NodeType::Release => 3u8,
                        NodeType::Revision => 4u8,
                        NodeType::Snapshot => 5u8,
                    },
                ),
            )
            &&& (forall|a: int, b: int| !#[trigger] has_id(arcs, fid, a, b)) ==> lookup_in(
                m,
                dir,
                fid,
            ) is None
        }),
{
    law_map_is_exact(g, reached, want, sequential, num_nodes, m, dir, fid);
    let arcs = (g.labels)(dir as usize);
    lemma_arcs_entry(g, arcs, fid, i, j);
}

proof fn lemma_arc_entry(g: GraphModel, child: usize, labels: Seq<EdgeLabel>, fid: u64)
    ensures
        labels.contains(EdgeLabel::DirEntry { name: fid }) ==> first_named(
            arc_entries(g, Set::full(), child, labels),
            fid,
        ) == Some((child as u64, type_code((g.node_type)(child)))),
        !labels.contains(EdgeLabel::DirEntry { name: fid }) ==> first_named(
            arc_entries(g, Set::full(), child, labels),
            fid,
        ) is None,
    decreases labels.len(),
{
    let wanted = EdgeLabel::DirEntry { name: fid };
    if labels.len() > 0 {
        let before = labels.drop_last();
        lemma_arc_entry(g, child, before, fid);
        let last = labels.last();
        assert(labels[labels.len() - 1] == last);
        assert(labels.contains(wanted) <==> before.contains(wanted) || last == wanted) by {
            if before.contains(wanted) {
                let k = choose|k: int| 0 <= k < before.len() && before[k] == wanted;
                assert(labels[k] == wanted);
            }
            if labels.contains(wanted) {
                let k = choose|k: int| 0 <= k < labels.len() && labels[k] == wanted;
                if k < before.len() {
                    assert(before[k] == wanted);
                }
            }
        }
        if let EdgeLabel::DirEntry { name } = last {
            let e = (name, child as u64, type_code((g.node_type)(child)));
            let a = arc_entries(g, Set::full(), child, before);
            assert(arc_entries(g, Set::full(), child, labels) =~= a + seq![e]);
            lemma_first_named_add(a, seq![e], fid);
            lemma_first_named(seq![e], fid, 0);
        }
    }
}

proof fn lemma_arcs_entry(
    g: GraphModel,
    arcs: Seq<(usize, Seq<EdgeLabel>)>,
    fid: u64,
    i: int,
    j: int,
)
    ensures
        has_id(arcs, fid, i, j) && (forall|a: int, b: int|
            a < i ==> !#[trigger] has_id(arcs, fid, a, b)) ==> first_named(
            arcs_entries(g, Set::full(), arcs),
            fid,
        ) == Some((arcs[i].0 as u64, type_code((g.node_type)(arcs[i].0)))),
        (forall|a: int, b: int| !#[trigger] has_id(arcs, fid, a, b)) ==> first_named(
            arcs_entries(g, Set::full(), arcs),
            fid,
        ) is None,
    decreases arcs.len(),
{
    if arcs.len() > 0 {
        let before = arcs.drop_last();
        let last = arcs.last();
        lemma_arcs_entry(g, before, fid, i, j);
        lemma_arc_entry(g, last.0, last.1, fid);
        let n = arcs.len() - 1;
        assert(arcs[n] == last);
        let a = arcs_entries(g, Set::full(), before);
        let b = arc_entries(g, Set::full(), last.0, last.1);
        lemma_first_named_add(a, b, fid);
        assert forall|x: int, y: int| #[trigger] has_id(before, fid, x, y) implies has_id(
            arcs,
            fid,
            x,
            y,
        ) by {
            assert(before[x] == arcs[x]);
        }
        if has_id(arcs, fid, i, j) && (forall|a: int, b: int|
            a < i ==> !#[trigger] has_id(arcs, fid, a, b)) {
            if i < n {
                assert(before[i] == arcs[i]);
                assert(has_id(before, fid, i, j));
            } else {
                assert(forall|x: int, y: int| !#[trigger] has_id(before, fid, x, y)) by {
                    assert forall|x: int, y: int| !#[trigger] has_id(before, fid, x, y) by {
                        if has_id(before, fid, x, y) {
                            assert(has_id(arcs, fid, x, y));
                        }
                    }
                }
                assert(last.1.contains(last.1[j]));
            }
        }
        if forall|a: int, b: int| !#[trigger] has_id(arcs, fid, a, b) {
            assert forall|x: int, y: int| !#[trigger] has_id(before, fid, x, y) by {
                if has_id(before, fid, x, y) {
                    assert(has_id(arcs, fid, x, y));
                }
            }
            assert(!last.1.contains(EdgeLabel::DirEntry { name: fid })) by {
                if last.1.contains(EdgeLabel::DirEntry { name: fid }) {
                    let k = choose|k: int|
                        0 <= k < last.1.len() && last.1[k] == (EdgeLabel::DirEntry { name: fid });
                    assert(has_id(arcs, fid, n, k));
                }
            }
        }
    }
}

/// A directory is in the directory map just where it is scanned and has an entry with a requested
/// name.
pub proof fn law_map_dirs(
    g: GraphModel,
    reached: Set<int>,
    want: Set<int>,
    sequential: bool,
    num_nodes: usize,
    m: Map<u64, Seq<Entry>>,
    dir: u64,
)
    requires
        hydrated(g, reached, want, sequential, num_nodes, m),
    ensures
        m.contains_key(dir) <==> is_scanned(g, reached, sequential, num_nodes, dir) && exists|
            fid: u64,
            i: int,
            j: int,
        |
            want.contains(fid as int) && #[trigger] has_id((g.labels)(dir as usize), fid, i, j),
        m.contains_key(dir) ==> forall|a: int, b: int|
            0 <= a < b < m[dir].len() ==> (#[trigger] m[dir][a]).0 < (#[trigger] m[dir][b]).0,
{
    assert(m.contains_key(dir) <==> dir < num_nodes && found(
        g,
        reached,
        want,
        sequential,
        dir as usize,
    ));
    lemma_arcs_any(g, want, (g.labels)(dir as usize));
}

proof fn lemma_arc_any(g: GraphModel, want: Set<int>, child: usize, labels: Seq<EdgeLabel>)
    ensures
        arc_entries(g, want, child, labels).len() > 0 <==> exists|j: int|
            0 <= j < labels.len() && (#[trigger] labels[j]) is DirEntry && want.contains(
                labels[j]->name as int,
            ),
    decreases labels.len(),
{
    if labels.len() > 0 {
        let before = labels.drop_last();
        lemma_arc_any(g, want, child, before);
        let last = labels.last();
        assert(labels[labels.len() - 1] == last);
        if arc_entries(g, want, child, before).len() > 0 {
            let j = choose|j: int|
                0 <= j < before.len() && (#[trigger] before[j]) is DirEntry && want.contains(
                    before[j]->name as int,
                );
            assert(labels[j] is DirEntry);
        }
        if exists|j: int|
            0 <= j < labels.len() && (#[trigger] labels[j]) is DirEntry && want.contains(
                labels[j]->name as int,
            ) {
            let j = choose|j: int|
                0 <= j < labels.len() && (#[trigger] labels[j]) is DirEntry && want.contains(
                    labels[j]->name as int,
                );
            if j < before.len() {
                assert(before[j] is DirEntry);
            }
        }
    }
}

proof fn lemma_arcs_any(g: GraphModel, want: Set<int>, arcs: Seq<(usize, Seq<EdgeLabel>)>)
    ensures
        arcs_entries(g, want, arcs).len() > 0 <==> exists|fid: u64, i: int, j: int|
            want.contains(fid as int) && #[trigger] has_id(arcs, fid, i, j),
    decreases arcs.len(),
{
    if arcs.len() > 0 {
        let before = arcs.drop_last();
        let last = arcs.last();
        let n = arcs.len() - 1;
        assert(arcs[n] == last);
        lemma_arcs_any(g, want, before);
        lemma_arc_any(g, want, last.0, last.1);
        if arcs_entries(g, want, before).len() > 0 {
            let (fid, i, j) = choose|fid: u64, i: int, j: int|
                want.contains(fid as int) && #[trigger] has_id(before, fid, i, j);
            assert(before[i] == arcs[i]);
            assert(has_id(arcs, fid, i, j));
        }
        if arc_entries(g, want, last.0, last.1).len() > 0 {
            let j = choose|j: int|
                0 <= j < last.1.len() && (#[trigger] last.1[j]) is DirEntry && want.contains(
                    last.1[j]->name as int,
                );
            assert(has_id(arcs, last.1[j]->name, n, j));
        }
        if exists|fid: u64, i: int, j: int|
            want.contains(fid as int) && #[trigger] has_id(arcs, fid, i, j) {
            let (fid, i, j) = choose|fid: u64, i: int, j: int|
                want.contains(fid as int) && #[trigger] has_id(arcs, fid, i, j);
            if i < n {
                assert(before[i] == arcs[i]);
                assert(has_id(before, fid, i, j));
            } else {
                assert(last.1[j] is DirEntry);
            }
        }
    }
}

/// The first `k` steps of a walk from `root` lead from directory to directory, along `nodes`.
pub open spec fn is_way(
    m: Map<u64, Seq<Entry>>,
    root: u64,
    path: Seq<u64>,
    nodes: Seq<u64>,
    k: int,
) -> bool {
    &&& 0 <= k < path.len()
    &&& nodes.len() == k + 1
    &&& nodes[0] == root
    &&& forall|j: int|
        0 <= j < k ==> #[trigger] path[j] != u64::MAX && lookup_in(m, nodes[j], path[j]) == Some(
            (nodes[j + 1], 1u8),
        )
}

/// Where a walk ends: at the first step that leads to no directory, or at the last step.
///
/// It succeeds just where the last step leads to a content, and has that content as its leaf. At
/// a revision it ends as a submodule, at a directory in the last step as a directory; where a name
/// is missing or anything else is met, nothing is found.
pub proof fn law_walk_end(m: Map<u64, Seq<Entry>>, row: SeedRow, nodes: Seq<u64>, k: int)
    requires
        row.root != u64::MAX,
        is_way(m, row.root, row.path, nodes, k),
    ensures
        ({
            let name = row.path[k];
            let step = lookup_in(m, nodes[k], name);
            let last = k == row.path.len() - 1;
            let end = walk(m, row);
            &&& name == u64::MAX || step is None ==> end == (0u64, Status::NotFound)
            &&& name != u64::MAX ==> (step matches Some((child, ty)) ==> {
                &&& last && ty == 0 ==> end == (child, Status::Resolved)
                &&& last && ty == 1 ==> end == (0u64, Status::DirTarget)
                &&& ty == 4 ==> end == (0u64, Status::Submodule)
                &&& !last && ty == 0 ==> end == (0u64, Status::NotFound)
                &&& ty != 0 && ty != 1 && ty != 4 ==> end == (0u64, Status::NotFound)
            })
        }),
{
    lemma_way(m, row.root, row.path, nodes, k);
    let rest = row.path.skip(k);
    assert(rest[0] == row.path[k]);
}

proof fn lemma_way(m: Map<u64, Seq<Entry>>, root: u64, path: Seq<u64>, nodes: Seq<u64>, k: int)
    requires
        is_way(m, root, path, nodes, k),
    ensures
        walk_from(m, root, path) == walk_from(m, nodes[k], path.skip(k)),
    decreases k,
{
    if k == 0 {
        assert(path.skip(0) =~= path);
    } else {
        assert(path[0] != u64::MAX);
        let tail = path.drop_first();
        let rest = nodes.drop_first();
        assert forall|j: int| 0 <= j < k - 1 implies #[trigger] tail[j] != u64::MAX && lookup_in(
            m,
            rest[j],
            tail[j],
        ) == Some((rest[j + 1], 1u8)) by {
            assert(tail[j] == path[j + 1]);
        }
        lemma_way(m, nodes[1], tail, rest, k - 1);
        assert(tail.skip(k - 1) =~= path.skip(k));
    }
}

/// A walk without a root or without names ends at once.
pub proof fn law_walk_nowhere(m: Map<u64, Seq<Entry>>, row: SeedRow)
    ensures
        row.root == u64::MAX ==> walk(m, row) == (0u64, Status::NoRoot),
        row.root != u64::MAX && row.path.len() == 0 ==> walk(m, row) == (0u64, Status::NotFound),
{
}

/// The numbers of the statuses.
pub proof fn law_status_numbers()
    ensures
        status_code(Status::Resolved) == 0,
        status_code(Status::NotFound) == 1,
        status_code(Status::Submodule) == 2,
        status_code(Status::DirTarget) == 3,
        status_code(Status::BadRev) == 4,
        status_code(Status::NoRoot) == 5,
{
}

/// A row of the output: the columns of the candidate as they stand, with the id in full, no
/// snapshot, and the content and its qualified SWHID just where the status is zero.
pub proof fn law_output_row(g: GraphModel, batch: PassThrough, i: int, leaf: u64, status: u8)
    ensures
        ({
            let row = batch.output(g, i, leaf, status);
            let ok = status == 0;
            &&& row.repo == batch.repo@[i]@
            &&& row.commit_id == batch.commit_id@[i]@
            &&& row.rel_path == batch.rel_path@[i]@
            &&& row.id == full_rev_id(batch.id@[i]@)
            &&& row.origin_url == batch.origin_url@[i]@
            &&& row.snapshot_swhid.len() == 0
            &&& row.rev_swhid == batch.rev_swhid@[i]@
            &&& ok ==> row.cnt_swhid == (g.swhid)(leaf as usize) && row.qualified == qualified(
                row.cnt_swhid,
                row.origin_url,
                Seq::empty(),
                row.rev_swhid,
                row.rel_path,
            ) && row.status == "ok"@
            &&& !ok ==> row.cnt_swhid.len() == 0 && row.qualified.len() == 0 && row.status
                == "path_not_found"@
        }),
{
}

/// The cells of a row of the output, each under its name.
pub proof fn law_output_cells(row: OutputRow)
    ensures
        row@ == (OutputText {
            repo: row.repo@,
            commit_id: row.commit_id@,
            rel_path: row.rel_path@,
            id: row.id@,
            origin_url: row.origin_url@,
            snapshot_swhid: row.snapshot_swhid@,
            rev_swhid: row.rev_swhid@,
            cnt_swhid: row.cnt_swhid@,
            qualified: row.qualified@,
            status: row.status@,
        }),
{
}

/// The output of all batches: row `i` of batch `k` stands behind all rows of the batches before,
/// and is made of the leaf and the status at that place.
pub proof fn law_outputs(
    g: GraphModel,
    batches: Seq<PassThrough>,
    leaf: Seq<u64>,
    status: Seq<u8>,
    k: int,
    i: int,
)
    requires
        0 <= k < batches.len(),
        0 <= i < batches[k].repo@.len(),
    ensures
        outputs(g, batches, leaf, status).len() == total_rows(batches),
        ({
            let at = total_rows(batches.take(k)) + i;
            &&& at < total_rows(batches)
            &&& outputs(g, batches, leaf, status)[at] == batches[k].output(
                g,
                i,
                leaf[at],
                status[at],
            )
        }),
    decreases batches.len(),
{
    lemma_outputs_len(g, batches, leaf, status);
    let before = batches.drop_last();
    lemma_outputs_len(g, before, leaf, status);
    if k < batches.len() - 1 {
        law_outputs(g, before, leaf, status, k, i);
        assert(before.take(k) =~= batches.take(k));
    } else {
        assert(batches.take(k) =~= before);
    }
}

proof fn lemma_outputs_len(
    g: GraphModel,
    batches: Seq<PassThrough>,
    leaf: Seq<u64>,
    status: Seq<u8>,
)
    ensures
        outputs(g, batches, leaf, status).len() == total_rows(batches),
    decreases batches.len(),
{
    if batches.len() > 0 {
        lemma_outputs_len(g, batches.drop_last(), leaf, status);
    }
}

/// The number of rows of batches: that of one more batch is added.
pub proof fn law_total_rows(batches: Seq<PassThrough>, more: PassThrough)
    ensures
        total_rows(Seq::empty()) == 0,
        total_rows(batches.push(more)) == total_rows(batches) + more.repo@.len(),
{
    assert(batches.push(more).drop_last() =~= batches);
}

/// The rows of groups, one group behind the other: those of one more group stand behind, as they
/// are.
pub proof fn law_flat_rows(groups: Seq<Vec<OutRow>>, more: Vec<OutRow>, i: int)
    requires
        0 <= i < more@.len(),
    ensures
        flat_rows(Seq::empty()).len() == 0,
        flat_rows(groups.push(more)).len() == flat_rows(groups).len() + more@.len(),
        flat_rows(groups.push(more)).take(flat_rows(groups).len() as int) == flat_rows(groups),
        flat_rows(groups.push(more))[flat_rows(groups).len() + i] == (RowText {
            repo: more@[i].repo@,
            commit_id: more@[i].commit_id@,
            rel_path: more@[i].rel_path@,
            rev_swhid: more@[i].rev_swhid@,
            origin_url: more@[i].origin_url@,
            bin: more@[i].bin@,
        }),
{
    assert(groups.push(more).drop_last() =~= groups);
    let all = flat_rows(groups.push(more));
    assert(all.take(flat_rows(groups).len() as int) =~= flat_rows(groups));
}

/// The table of the candidates has row `i` in its columns: the id is the SWHID of the revision once
/// more, and the file path the relative path.
pub proof fn law_cands_columns(cols: CandsColumns, rows: Seq<RowText>, i: int)
    requires
        cols.hold(rows),
        0 <= i < rows.len(),
    ensures
        cols.repo@.len() == rows.len(),
        cols.commit_id@.len() == rows.len(),
        cols.rel_path@.len() == rows.len(),
        cols.id@.len() == rows.len(),
        cols.origin_url@.len() == rows.len(),
        cols.rev_swhid@.len() == rows.len(),
        cols.file_path@.len() == rows.len(),
        cols.bin@.len() == rows.len(),
        cols.repo@[i]@ == rows[i].repo,
        cols.commit_id@[i]@ == rows[i].commit_id,
        cols.rel_path@[i]@ == rows[i].rel_path,
        cols.id@[i]@ == rows[i].rev_swhid,
        cols.origin_url@[i]@ == rows[i].origin_url,
        cols.rev_swhid@[i]@ == rows[i].rev_swhid,
        cols.file_path@[i]@ == rows[i].rel_path,
        cols.bin@[i]@ == rows[i].bin,
{
}

/// The roots of the seeds are all that stand there but the missing ones.
pub proof fn law_roots(seeds: Seeds, n: usize)
    ensures
        seeds.roots().contains(n) <==> exists|i: int|
            0 <= i < seeds.root@.len() && #[trigger] seeds.root@[i] != u64::MAX && seeds.root@[i]
                as usize == n,
{
}

/// The path of a row is the part of all ids between its two offsets.
pub proof fn law_path(seeds: Seeds, row: int, k: int)
    requires
        0 <= row,
        row + 1 < seeds.path_off@.len(),
        seeds.path_off@[row] <= seeds.path_off@[row + 1] <= seeds.path_fids@.len(),
        0 <= k < seeds.path_off@[row + 1] - seeds.path_off@[row],
    ensures
        seeds.path(row).len() == seeds.path_off@[row + 1] - seeds.path_off@[row],
        seeds.path(row)[k] == seeds.path_fids@[seeds.path_off@[row] + k],
{
}

} // verus!
