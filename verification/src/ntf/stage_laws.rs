//! What the statements on whole stages give row by row.

use vstd::prelude::*;

use crate::ntf::cands::{flat_rows, full_chunks, Chunk};
use crate::ntf::common::{rounded_to_words, status_code, DirMap, Names, Status, N_LABELS};
use crate::ntf::entries::{arcs_entries, names_within, Entry};
use crate::ntf::graph::{
    directories_within, type_code, EdgeLabel, Graph, GraphModel, NodeType,
};
use crate::ntf::hydrate::{
    all_rows, found_dirs, hydrated, rows_map, DirRow, HydrateError, WorkerShard,
};
use crate::ntf::names::{ids_below, matches_view, names_are, requested_below, LabelMatch};
use crate::ntf::offsets::band_target;
use crate::ntf::pipeline::{
    batch_roots, components_in, final_row, is_output, is_result, is_row_map, is_sound, is_walked,
    map_dirs, row_agrees, row_components, row_output, row_roots, rows_agree, walked_leaf, walks_are,
    Resolved,
};
use crate::ntf::prefix::{indexes, rev_nodes, PrefixIndex};
use crate::ntf::reach::reach;
use crate::ntf::scratch::{
    candidates, commit_key, group_rev, is_resolved, winner_for, Input, InputBatch, OutRow, RowText,
};
use crate::ntf::seed_laws::law_greatest_id;
use crate::ntf::seeds::{bin_of, memo_is, root_of_id, seed_row, seed_rows, SeedBatch};
use crate::ntf::sorted::{ascends, lists};
use crate::ntf::text::{
    bytes_view, component_bytes, full_rev_id, github_url, origin_swhid, qualified,
};
use crate::ntf::traverse::{walk, BinnedRow, PassThrough};
use crate::ntf::verify::{direct_leaf, OutputBatch};
use crate::ntf::walk_laws::{has_id, is_scanned, law_map_dirs};

verus! {

/// What the names of a stage hold: an id is requested where its name is wanted, and a wanted name
/// has its id.
pub proof fn law_names_are(
    names: &Names,
    g: GraphModel,
    distinct: Set<Seq<u8>>,
    n: int,
    id: u64,
    name: Seq<u8>,
)
    requires
        0 <= n <= u64::MAX,
        names_are(names, g, distinct, n),
    ensures
        names.requested@.contains(id as int) <==> id < n && distinct.contains((g.label_name)(id)),
        names.component_fid@.contains_key(name) <==> distinct.contains(name) && exists|k: u64|
            k < n && #[trigger] (g.label_name)(k) == name,
        names.component_fid@.contains_key(name) ==> names.component_fid@[name] < n && (
        g.label_name)(names.component_fid@[name]) == name,
{
    law_greatest_id(g, distinct, n, name);
}

/// A prefix index of the whole graph has for a key just its revisions.
pub proof fn law_indexes(index: &PrefixIndex, g: GraphModel, nibbles: nat, key: Seq<u8>)
    requires
        indexes(index, g, nibbles),
    ensures
        index.nodes(key) == rev_nodes(g, nibbles, key, 0, g.num_nodes as int),
{
}

/// The candidates of a commit: with an index those that it has for the commit's key, without one
/// the revision with the commit as its hash.
pub proof fn law_candidates(
    g: GraphModel,
    index: Option<&PrefixIndex>,
    nibbles: nat,
    commit: Seq<char>,
    n: usize,
)
    ensures
        index matches Some(ix) ==> (candidates(g, index, nibbles, commit).contains(n)
            <==> ix.nodes(commit_key(commit, nibbles)).contains(n)),
        index is None ==> (candidates(g, index, nibbles, commit).contains(n) <==> (g.node_id)(
            full_rev_id(commit),
        ) == Some(n)),
{
}

/// A group is resolved for the origin that the URL of its repository has.
pub proof fn law_group_rev(g: GraphModel, repo: Seq<char>, cands: Set<usize>)
    ensures
        (g.node_id)(origin_swhid(github_url(repo))) is None ==> group_rev(g, repo, cands) is None,
        group_rev(g, repo, cands) == winner_for(
            g,
            (g.node_id)(origin_swhid(github_url(repo))),
            cands,
        ),
{
}

/// A list of the nodes of a set: each of them once, in strictly ascending order.
pub proof fn law_lists(v: Seq<usize>, set: Set<usize>, n: usize)
    requires
        lists(v, set),
    ensures
        v.contains(n) <==> set.contains(n),
        forall|i: int, j: int| 0 <= i < j < v.len() ==> v[i] < v[j],
        ascends(v),
        v.no_duplicates(),
{
}

/// The entries of a directory, in the order of its arcs and of their labels: those on one more arc
/// stand behind, one for each label that is an entry with a requested name, with the child of the
/// arc and its type.
pub proof fn law_entries(
    g: GraphModel,
    want: Set<int>,
    arcs: Seq<(usize, Seq<EdgeLabel>)>,
    child: usize,
    labels: Seq<EdgeLabel>,
    label: EdgeLabel,
)
    ensures
        arcs_entries(g, want, Seq::empty()).len() == 0,
        arcs_entries(g, want, arcs.push((child, Seq::empty()))) == arcs_entries(g, want, arcs),
        arcs_entries(g, want, arcs.push((child, labels.push(label)))) == arcs_entries(
            g,
            want,
            arcs.push((child, labels)),
        ) + (match label {
            EdgeLabel::DirEntry { name } => if want.contains(name as int) {
                seq![(name, child as u64, type_code((g.node_type)(child)))]
            } else {
                Seq::empty()
            },
            _ => Seq::empty(),
        }),
{
    let none = Seq::<EdgeLabel>::empty();
    assert(arcs.push((child, none)).drop_last() =~= arcs);
    assert(arcs.push((child, labels)).drop_last() =~= arcs);
    assert(arcs.push((child, labels.push(label))).drop_last() =~= arcs);
    assert(labels.push(label).drop_last() =~= labels);
    assert(arcs_entries(g, want, arcs.push((child, none))) =~= arcs_entries(g, want, arcs));
    assert(arcs_entries(g, want, arcs.push((child, labels.push(label)))) =~= arcs_entries(
        g,
        want,
        arcs.push((child, labels)),
    ) + (match label {
        EdgeLabel::DirEntry { name } => if want.contains(name as int) {
            seq![(name, child as u64, type_code((g.node_type)(child)))]
        } else {
            Seq::empty()
        },
        _ => Seq::empty(),
    }));
}

/// What was looked up is as it was found.
pub proof fn law_memo(g: GraphModel, memo: Map<Seq<char>, u64>, rid: Seq<char>)
    requires
        memo_is(g, memo),
        memo.contains_key(rid),
    ensures
        memo[rid] == root_of_id(g, rid),
{
}

/// Lists of byte strings and of names with their ids, one by one.
pub proof fn law_list_views(v: Seq<Vec<u8>>, m: Seq<LabelMatch>, i: int)
    ensures
        bytes_view(v).len() == v.len(),
        0 <= i < v.len() ==> bytes_view(v)[i] == v[i]@,
        matches_view(m).len() == m.len(),
        0 <= i < m.len() ==> matches_view(m)[i] == (m[i].name@, m[i].id),
{
}

/// A directory counts where it is scanned and has an entry with a requested name.
pub proof fn law_found_dirs(
    g: GraphModel,
    reached: Set<int>,
    want: Set<int>,
    sequential: bool,
    num_nodes: usize,
    m: Map<u64, Seq<Entry>>,
    dir: u64,
)
    requires
        hydrated(g, reached, want, sequential, num_nodes, m),
    ensures
        found_dirs(g, reached, want, sequential, num_nodes).contains(dir) <==> is_scanned(
            g,
            reached,
            sequential,
            num_nodes,
            dir,
        ) && exists|fid: u64, i: int, j: int|
            want.contains(fid as int) && #[trigger] has_id((g.labels)(dir as usize), fid, i, j),
{
    law_map_dirs(g, reached, want, sequential, num_nodes, m, dir);
    assert(m.contains_key(dir) <==> found_dirs(
        g,
        reached,
        want,
        sequential,
        num_nodes,
    ).contains(dir));
}

/// The rows of shards, one shard behind the other, and the map that they make.
pub proof fn law_rows_of_shards(
    shards: Seq<WorkerShard>,
    shard: WorkerShard,
    rows: Seq<DirRow>,
    row: DirRow,
)
    ensures
        all_rows(Seq::empty()) == Seq::<DirRow>::empty(),
        all_rows(shards.push(shard)) == all_rows(shards) + shard@,
        rows_map(Seq::empty()) == Map::<u64, Seq<Entry>>::empty(),
        rows_map(rows.push(row)) == rows_map(rows).insert(row.0, row.1),
{
    assert(shards.push(shard).drop_last() =~= shards);
    assert(rows.push(row).drop_last() =~= rows);
}

/// A directory map that is compact: the ranks are 0, 1 and so on in the order of the directories,
/// the offsets start at 0 and ascend, and the last one is the number of the entries.
pub proof fn law_compact(map: DirMap, d: u64, e: u64, i: int, j: int)
    requires
        map.is_compact(),
    ensures
        map.offsets@.len() == map.index@.dom().len() + 1,
        map.offsets@[0] == 0,
        map.offsets@[map.offsets@.len() - 1] == map.ent_fid@.len(),
        map.ent_child@.len() == map.ent_fid@.len(),
        map.ent_ty@.len() == map.ent_fid@.len(),
        0 <= i < j < map.offsets@.len() ==> map.offsets@[i] < map.offsets@[j],
        map.index@.contains_key(d) ==> map.index@[d] < map.index@.dom().len(),
        map.index@.contains_key(d) && map.index@.contains_key(e) ==> (d < e <==> map.index@[d]
            < map.index@[e]),
        0 <= i < map.index@.dom().len() ==> exists|x: u64| #[trigger]
            map.index@.contains_key(x) && map.index@[x] == i,
{
    if 0 <= i < map.index@.dom().len() {
        assert(map.has_rank(i));
    }
}

/// The chunks of a table: one behind the other, each with a million rows.
pub proof fn law_chunks(chunks: Seq<Chunk>, n: int, i: int)
    requires
        full_chunks(chunks, n),
        0 <= i < chunks.len(),
    ensures
        chunks[i].start == i * 1_000_000,
        chunks[i].end == chunks[i].start + 1_000_000,
        n == chunks.len() * 1_000_000,
{
}

/// A band starts at its share of the bits, rounded down.
pub proof fn law_band_target(total_bits: usize, i: int, k: int)
    requires
        0 <= i,
        0 < k,
    ensures
        k * band_target(total_bits, i, k) <= total_bits * i < k * (band_target(total_bits, i, k)
            + 1),
{
    let all = total_bits * i;
    assert(k * (all / k) <= all < k * (all / k + 1)) by (nonlinear_arith)
        requires
            0 < k,
    ;
}

/// The bits are kept in words of sixty-four, as few as are enough.
pub proof fn law_rounded_to_words(n: nat)
    ensures
        n <= rounded_to_words(n) < n + 64,
        rounded_to_words(n) % 64 == 0,
{
}

/// Of the columns of rows, nothing is asked but that they are equally long.
pub proof fn law_columns_match(
    inp: Input,
    read: InputBatch,
    batch: SeedBatch,
    pass: PassThrough,
    written: OutputBatch,
)
    ensures
        inp.wf() <==> {
            let n = inp.repo@.len();
            n == inp.commit_id@.len() && n == inp.rel_path@.len() && n == inp.bin@.len()
        },
        read.wf() <==> {
            let n = read.repo@.len();
            &&& n == read.commit_id@.len() && n == read.rel_path@.len()
            &&& read.bin is None || n == read.bin->0@.len()
        },
        batch.wf() <==> {
            let n = batch.rev@.len();
            &&& n == batch.repo@.len() && n == batch.commit_id@.len()
            &&& n == batch.rel_path@.len() && n == batch.bin@.len()
        },
        pass.wf() <==> {
            let n = pass.repo@.len();
            &&& n == pass.commit_id@.len() && n == pass.rel_path@.len() && n == pass.id@.len()
            &&& n == pass.origin_url@.len() && n == pass.rev_swhid@.len()
        },
        written.wf() <==> {
            let n = written.status@.len();
            &&& n == written.rev_swhid@.len() && n == written.rel_path@.len()
            &&& n == written.cnt_swhid@.len()
        },
{
}

/// A graph is sound where no two ids of the label table have one name, every entry has its name in
/// the table, every labelled arc is an arc and every directory is a node: nothing more is asked.
pub proof fn law_is_sound(g: GraphModel, num_nodes: usize)
    requires
        forall|a: u64, b: u64|
            #![trigger (g.label_name)(a), (g.label_name)(b)]
            a < N_LABELS && b < N_LABELS && (g.label_name)(a) == (g.label_name)(b) ==> a == b,
        forall|n: usize, i: int, j: int|
            #![trigger (g.labels)(n)[i].1[j]]
            0 <= i < (g.labels)(n).len() && 0 <= j < (g.labels)(n)[i].1.len() && (
            g.labels)(n)[i].1[j] is DirEntry ==> (g.labels)(n)[i].1[j]->name < N_LABELS,
        forall|n: usize, i: int|
            0 <= i < (g.labels)(n).len() ==> (g.succ)(n).contains((#[trigger] (g.labels)(n)[i]).0),
        forall|d: usize| #[trigger] (g.node_type)(d) == NodeType::Directory ==> d < num_nodes,
    ensures
        is_sound(g, num_nodes),
{
}

/// What a scan asks of the ids of names, and the search of the directories: no more than that they
/// have their bits.
pub proof fn law_within<G: Graph>(graph: &G, bound: nat)
    requires
        forall|n: usize, r: Vec<(usize, Vec<EdgeLabel>)>, i: int, j: int|
            #![trigger call_ensures(G::labeled_successors, (graph, n), r), r@[i].1@[j]]
            call_ensures(G::labeled_successors, (graph, n), r) && 0 <= i < r@.len() && 0 <= j
                < r@[i].1@.len() && r@[i].1@[j] is DirEntry ==> r@[i].1@[j]->name < N_LABELS,
        forall|n: usize, r: Vec<usize>, i: int|
            #![trigger call_ensures(G::successors, (graph, n), r), r@[i]]
            call_ensures(G::successors, (graph, n), r) && 0 <= i < r@.len() && call_ensures(
                G::node_type,
                (graph, r@[i]),
                NodeType::Directory,
            ) ==> r@[i] < bound,
    ensures
        names_within(graph),
        directories_within(graph, bound),
{
    law_rounded_to_words(N_LABELS as nat);
}

/// The components of the paths are wanted: nothing more is asked of the wanted names.
pub proof fn law_components_in(batch: &SeedBatch, distinct: Set<Seq<u8>>)
    requires
        forall|i: int, b: Seq<u8>|
            0 <= i < batch.rel_path@.len() && #[trigger] component_bytes(
                batch.rel_path@[i]@,
            ).contains(b) ==> distinct.contains(b),
    ensures
        components_in(batch, distinct),
{
    assert forall|i: int, c: int|
        #![trigger component_bytes(batch.rel_path@[i]@)[c]]
        0 <= i < batch.rel_path@.len() && 0 <= c < component_bytes(
            batch.rel_path@[i]@,
        ).len() implies distinct.contains(component_bytes(batch.rel_path@[i]@)[c]) by {
        let bytes = component_bytes(batch.rel_path@[i]@);
        assert(bytes.contains(bytes[c]));
    }
}

/// Rows that agree with the direct walk: the status is zero, and the leaf the content, just where
/// the direct walk from the revision comes to one.
pub proof fn law_rows_agree(
    g: GraphModel,
    batch: &SeedBatch,
    leaf: Seq<u64>,
    status: Seq<u8>,
    i: int,
)
    requires
        rows_agree(g, batch, leaf, status),
        0 <= i < batch.rev@.len(),
    ensures
        leaf.len() == batch.rev@.len(),
        status.len() == batch.rev@.len(),
        status[i] == 0 <==> direct_leaf(g, full_rev_id(batch.rev@[i]@), batch.rel_path@[i]@) is Some,
        status[i] == 0 ==> direct_leaf(g, full_rev_id(batch.rev@[i]@), batch.rel_path@[i]@) == Some(
            leaf[i] as usize,
        ),
        status[i] != 0 ==> leaf[i] == 0,
{
    assert(row_agrees(g, batch, leaf, status, i));
}

/// The leaves and the statuses of the walks, row by row.
pub proof fn law_walks_are(m: Map<u64, Seq<Entry>>, v: Resolved, i: int)
    requires
        walks_are(m, v),
        0 <= i < v.seeds.n_rows,
    ensures
        v.leaf@.len() == v.seeds.n_rows,
        v.status@.len() == v.seeds.n_rows,
        v.leaf@[i] == walk(m, seed_rows(v.seeds)[i]).0,
        v.status@[i] == status_code(walk(m, seed_rows(v.seeds)[i]).1),
{
}

/// The roots and the components of rows, and the roots of candidates.
pub proof fn law_row_sets(
    g: GraphModel,
    rows: Seq<RowText>,
    batch: &SeedBatch,
    i: int,
    b: Seq<u8>,
)
    ensures
        0 <= i < rows.len() && root_of_id(g, full_rev_id(rows[i].rev_swhid)) != u64::MAX
            ==> row_roots(g, rows).contains(
            root_of_id(g, full_rev_id(rows[i].rev_swhid)) as usize,
        ),
        0 <= i < rows.len() && component_bytes(rows[i].rel_path).contains(b) ==> row_components(
            rows,
        ).contains(b),
        0 <= i < batch.rev@.len() && root_of_id(g, full_rev_id(batch.rev@[i]@)) != u64::MAX
            ==> batch_roots(g, batch).contains(
            root_of_id(g, full_rev_id(batch.rev@[i]@)) as usize,
        ),
        row_components(rows).contains(b) ==> exists|k: int|
            0 <= k < rows.len() && component_bytes((#[trigger] rows[k]).rel_path).contains(b),
{
    if 0 <= i < rows.len() {
        assert(rows[i] == rows[i]);
    }
    if 0 <= i < batch.rev@.len() {
        assert(batch.rev@[i]@ == batch.rev@[i]@);
    }
}

/// The output of a resolved row: its own columns, the SWHID of its revision as its id, and the
/// content and its qualified SWHID just where there is a leaf.
pub proof fn law_row_output(g: GraphModel, row: RowText, leaf: Option<usize>)
    ensures
        ({
            let out = row_output(g, row, leaf);
            &&& out.repo == row.repo
            &&& out.commit_id == row.commit_id
            &&& out.rel_path == row.rel_path
            &&& out.id == full_rev_id(row.rev_swhid)
            &&& out.origin_url == row.origin_url
            &&& out.snapshot_swhid.len() == 0
            &&& out.rev_swhid == row.rev_swhid
            &&& leaf matches Some(l) ==> out.status == "ok"@ && out.cnt_swhid == (g.swhid)(l)
                && out.qualified == qualified(
                (g.swhid)(l),
                row.origin_url,
                Seq::empty(),
                row.rev_swhid,
                row.rel_path,
            )
            &&& leaf is None ==> out.status == "path_not_found"@ && out.cnt_swhid.len() == 0
                && out.qualified.len() == 0
        }),
        final_row(g, row) == row_output(
            g,
            row,
            direct_leaf(g, full_rev_id(row.rev_swhid), row.rel_path),
        ),
{
}

/// What the whole run gives, row by row: on every graph the output of the walks over the directory
/// map, on a sound one that of the direct walks; an error only where there are more directories
/// than ranks.
pub proof fn law_result(
    g: GraphModel,
    inp: Input,
    nibbles: nat,
    bounds: nat,
    groups: Seq<Vec<OutRow>>,
    r: Result<Vec<BinnedRow>, HydrateError>,
    i: int,
)
    requires
        is_result(g, inp, nibbles, bounds, groups, r),
    ensures
        is_resolved(g, inp, nibbles, groups),
        r is Err <==> map_dirs(g, flat_rows(groups), (bounds - 1) as usize).len() > u32::MAX,
        r matches Ok(out) ==> {
            let rows = flat_rows(groups);
            &&& out@.len() == rows.len()
            &&& 0 <= i < rows.len() ==> out@[i].bin == bin_of(rows[i].bin)
            &&& 0 <= i < rows.len() ==> exists|m: Map<u64, Seq<Entry>>| #[trigger]
                is_row_map(g, rows, (bounds - 1) as usize, m) && out@[i].row@ == row_output(
                    g,
                    rows[i],
                    walked_leaf(
                        g,
                        ids_below(g, row_components(rows), N_LABELS as int),
                        m,
                        rows[i],
                    ),
                )
            &&& 0 <= i < rows.len() && is_sound(g, (bounds - 1) as usize) ==> out@[i].row@
                == row_output(
                g,
                rows[i],
                direct_leaf(g, full_rev_id(rows[i].rev_swhid), rows[i].rel_path),
            )
        },
{
    if let Ok(out) = r {
        let rows = flat_rows(groups);
        let m = choose|m: Map<u64, Seq<Entry>>|
            #![trigger is_walked(g, groups, m, out@)]
            is_row_map(g, rows, (bounds - 1) as usize, m) && is_walked(g, groups, m, out@);
        assert(is_walked(g, groups, m, out@));
        if 0 <= i < rows.len() {
            assert(out@[i].row@ == row_output(
                g,
                rows[i],
                walked_leaf(g, ids_below(g, row_components(rows), N_LABELS as int), m, rows[i]),
            ));
            assert(is_row_map(g, rows, (bounds - 1) as usize, m));
            if is_sound(g, (bounds - 1) as usize) {
                assert(is_output(g, groups, out@));
                assert(out@[i].row@ == final_row(g, rows[i]));
            }
        }
    }
}

/// The directory map for rows, and the leaf of a row by the walk over it.
pub proof fn law_row_map(
    g: GraphModel,
    rows: Seq<RowText>,
    num_nodes: usize,
    ids: Map<Seq<u8>, u64>,
    m: Map<u64, Seq<Entry>>,
    row: RowText,
)
    requires
        is_row_map(g, rows, num_nodes, m),
    ensures
        ({
            let reached = reach(g, row_roots(g, rows), Set::empty());
            let want = requested_below(g, row_components(rows), N_LABELS as int);
            let sequential = reached.len() > 2_400_000;
            &&& hydrated(g, reached, want, sequential, num_nodes, m)
            &&& map_dirs(g, rows, num_nodes) == found_dirs(g, reached, want, sequential, num_nodes)
        }),
        walked_leaf(g, ids, m, row) == (match walk(
            m,
            seed_row(g, ids, row.rev_swhid, row.rel_path, row.bin),
        ) {
            (leaf, Status::Resolved) => Some(leaf as usize),
            _ => None,
        }),
{
}

} // verus!
