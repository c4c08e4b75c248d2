//! The stages in a row: from candidates to leaves, and from metadata to output.

use vstd::prelude::*;

use crate::ntf::cands::{cands_columns, flat_rows};
use crate::ntf::common::{
    rounded_to_words, status_code, NodeBitset, Names, Seeds, Status, N_LABELS, ROOT_MISSING,
};
use crate::ntf::entries::{names_within, Entry};
use crate::ntf::graph::{
    bidirectional_is, directories_within, graph_is, BackwardGraph, Graph, GraphModel, NodeType,
};
use crate::ntf::hydrate::{found_dirs, hydrate, hydrated, HydrateError, SEQ_THRESHOLD};
use crate::ntf::laws::{arcs_agree, law_pipeline_is_direct, names_in_table, names_unique};
use crate::ntf::maps::ByteSet;
use crate::ntf::names::{
    all_components, build_names, collect_distinct_components, ids_below, names_are, requested_below,
};
use crate::ntf::offsets::LabelOffsets;
use crate::ntf::reach::{mark_reachable_dirs, reach};
use crate::ntf::scratch::{is_resolved, resolve_candidates, Input, OutRow, RowText};
use crate::ntf::seeds::{
    bin_of, build_seeds, root_below, root_of_id, roots_below, seed_row, seed_rows, SeedBatch,
};
use crate::ntf::sorted::lists;
use crate::ntf::text::{component_bytes, full_rev_id, qualified};
use crate::ntf::traverse::{emit_batch, traverse, walk, BinnedRow, OutputText, PassThrough};
use crate::ntf::verify::direct_leaf;

verus! {

/// What is asked of a graph with `num_nodes` nodes: no two ids of the label table have one
/// name, all entries have their name in it, the labelled arcs are arcs, and the directories
/// are nodes.
pub open spec fn is_sound(g: GraphModel, num_nodes: usize) -> bool {
    &&& names_unique(g)
    &&& names_in_table(g)
    &&& arcs_agree(g)
    &&& forall|d: usize| #[trigger] (g.node_type)(d) == NodeType::Directory ==> d < num_nodes
}

/// Every component of every path is in `distinct`.
pub open spec fn components_in(batch: &SeedBatch, distinct: Set<Seq<u8>>) -> bool {
    forall|i: int, c: int|
        #![trigger component_bytes(batch.rel_path@[i]@)[c]]
        0 <= i < batch.rel_path@.len() && 0 <= c < component_bytes(batch.rel_path@[i]@).len()
            ==> distinct.contains(component_bytes(batch.rel_path@[i]@)[c])
}

/// Row `i` is resolved just where the direct walk comes to a content, and then to it.
pub open spec fn row_agrees(
    g: GraphModel,
    batch: &SeedBatch,
    leaf: Seq<u64>,
    status: Seq<u8>,
    i: int,
) -> bool {
    match direct_leaf(g, full_rev_id(batch.rev@[i]@), batch.rel_path@[i]@) {
        Some(l) => status[i] == status_code(Status::Resolved) && leaf[i] == l,
        None => status[i] != status_code(Status::Resolved) && leaf[i] == 0,
    }
}

/// Every row is resolved as a direct walk would resolve it.
pub open spec fn rows_agree(
    g: GraphModel,
    batch: &SeedBatch,
    leaf: Seq<u64>,
    status: Seq<u8>,
) -> bool {
    &&& leaf.len() == batch.rev@.len()
    &&& status.len() == batch.rev@.len()
    &&& forall|i: int|
        0 <= i < batch.rev@.len() ==> #[trigger] row_agrees(g, batch, leaf, status, i)
}

/// What the stages give for a batch of candidates.
pub struct Resolved {
    pub seeds: Seeds,
    pub leaf: Vec<u64>,
    pub status: Vec<u8>,
}

/// The leaves and the statuses are those of the walks over the directory map `m`.
pub open spec fn walks_are(m: Map<u64, Seq<Entry>>, v: Resolved) -> bool {
    &&& v.leaf@.len() == v.seeds.n_rows
    &&& v.status@.len() == v.seeds.n_rows
    &&& forall|i: int|
        #![trigger v.leaf@[i]]
        #![trigger v.status@[i]]
        0 <= i < v.seeds.n_rows ==> {
            let (leaf, status) = walk(m, seed_rows(v.seeds)[i]);
            v.leaf@[i] == leaf && v.status@[i] == status_code(status)
        }
}

/// The root directories of the candidates.
pub open spec fn batch_roots(g: GraphModel, batch: &SeedBatch) -> Set<usize> {
    Set::new(
        |n: usize|
            exists|i: int|
                0 <= i < batch.rev@.len() && root_of_id(
                    g,
                    full_rev_id((#[trigger] batch.rev@[i])@),
                ) != ROOT_MISSING && root_of_id(g, full_rev_id(batch.rev@[i]@)) as usize == n,
    )
}

/// Resolves all rows of a batch of candidates: seeds, reachable directories, directory map,
/// walk. The nodes are those that the label offset index is for.
pub fn resolve_rows<G: Graph>(
    graph: &G,
    offsets: &LabelOffsets,
    distinct: &ByteSet,
    names: &Names,
    batch: &SeedBatch,
    k: usize,
) -> (r: Result<Resolved, HydrateError>)
    requires
        batch.wf(),
        components_in(batch, distinct@),
        names.requested.wf(),
        forall|g: GraphModel| #[trigger]
            graph_is(graph, g) ==> names_are(names, g, distinct@, N_LABELS as int),
        k < usize::MAX,
        0 < offsets@.len() <= usize::MAX,
        rounded_to_words((offsets@.len() - 1) as nat) <= u64::MAX,
        directories_within(graph, rounded_to_words((offsets@.len() - 1) as nat)),
        names_within(graph),
    ensures
        forall|g: GraphModel| #[trigger]
            graph_is(graph, g) ==> {
                let num_nodes = (offsets@.len() - 1) as usize;
                let reached = reach(g, batch_roots(g, batch), Set::empty());
                let want = requested_below(g, distinct@, N_LABELS as int);
                &&& r is Err <==> found_dirs(
                    g,
                    reached,
                    want,
                    reached.len() > SEQ_THRESHOLD,
                    num_nodes,
                ).len() > u32::MAX
                &&& r matches Ok(v) ==> {
                    &&& exists|m: Map<u64, Seq<Entry>>|
                        #![trigger walks_are(m, v)]
                        hydrated(g, reached, want, reached.len() > SEQ_THRESHOLD, num_nodes, m)
                            && walks_are(m, v)
                    &&& seed_rows(v.seeds) == batch.rows(
                        g,
                        ids_below(g, distinct@, N_LABELS as int),
                    )
                    &&& is_sound(g, num_nodes) ==> rows_agree(g, batch, v.leaf@, v.status@)
                }
            },
        r matches Ok(v) ==> {
            &&& v.seeds.wf()
            &&& v.seeds.n_rows == batch.rev@.len()
            &&& v.leaf@.len() == v.seeds.n_rows
            &&& v.status@.len() == v.seeds.n_rows
        },
{
    let n: usize = offsets.len();
    let num_nodes: usize = n - 1;
    let ghost bound = rounded_to_words(num_nodes as nat);
    let (seeds, _stats) = build_seeds(graph, names, batch);
    assert(roots_below(seeds.root@, bound));
    let roots = seeds.distinct_roots();
    let mut reached = NodeBitset::new(num_nodes);
    proof {
        assert forall|i: int| 0 <= i < roots@.len() implies #[trigger] roots@[i]
            < reached.capacity() by {
            assert(roots@.contains(roots@[i]));
            assert(seeds.roots().contains(roots@[i]));
            let j = choose|j: int|
                0 <= j < seeds.root@.len() && #[trigger] seeds.root@[j] != ROOT_MISSING
                    && seeds.root@[j] as usize == roots@[i];
            assert(root_below(seeds.root@[j], bound));
        }
    }
    mark_reachable_dirs(graph, roots.as_slice(), &mut reached);
    proof {
        reached.lemma_bounded();
    }
    let map = match hydrate(graph, offsets, &reached, &names.requested, k) {
        Ok(map) => map,
        Err(e) => {
            assert forall|g: GraphModel| #[trigger] graph_is(graph, g) implies roots@.to_set()
                == batch_roots(g, batch) by {
                lemma_roots(g, batch, seeds, roots@, ids_below(g, distinct@, N_LABELS as int));
            }
            return Err(e);
        },
    };
    let (leaf, status) = traverse(&map, &seeds);
    assert forall|g: GraphModel| #[trigger] graph_is(graph, g) implies roots@.to_set()
        == batch_roots(g, batch) && (is_sound(g, num_nodes) ==> rows_agree(
        g,
        batch,
        leaf@,
        status@,
    )) by {
        let ids = ids_below(g, distinct@, N_LABELS as int);
        lemma_roots(g, batch, seeds, roots@, ids);
        assert(seed_rows(seeds).len() == seeds.n_rows);
        assert(batch.rows(g, ids).len() == batch.rev@.len());
        if is_sound(g, num_nodes) {
            assert forall|i: int| 0 <= i < batch.rev@.len() implies #[trigger] row_agrees(
                g,
                batch,
                leaf@,
                status@,
                i,
            ) by {
                let rev = batch.rev@[i]@;
                let rel = batch.rel_path@[i]@;
                assert(seed_rows(seeds)[i] == seed_row(g, ids, rev, rel, batch.bin@[i]@));
                assert(leaf@[i] == walk(map@, seed_rows(seeds)[i]).0);
                if root_of_id(g, full_rev_id(rev)) != ROOT_MISSING {
                    assert(batch.rev@[i]@ == rev);
                    assert(batch_roots(g, batch).contains(
                        root_of_id(g, full_rev_id(rev)) as usize,
                    ));
                }
                law_pipeline_is_direct(
                    g,
                    distinct@,
                    roots@.to_set(),
                    reached@.len() > SEQ_THRESHOLD,
                    num_nodes,
                    map@,
                    rev,
                    rel,
                    batch.bin@[i]@,
                );
            }
        }
    }
    let v = Resolved { seeds, leaf, status };
    assert(walks_are(map@, v));
    Ok(v)
}

/// The distinct roots of the seeds are the roots of the candidates.
proof fn lemma_roots(
    g: GraphModel,
    batch: &SeedBatch,
    seeds: Seeds,
    roots: Seq<usize>,
    ids: Map<Seq<u8>, u64>,
)
    requires
        seeds.wf(),
        seed_rows(seeds) == batch.rows(g, ids),
        lists(roots, seeds.roots()),
    ensures
        roots.to_set() == batch_roots(g, batch),
{
    let rows = seed_rows(seeds);
    assert(rows.len() == seeds.n_rows);
    assert(batch.rows(g, ids).len() == batch.rev@.len());
    assert forall|i: int| 0 <= i < seeds.n_rows implies seeds.root@[i] == root_of_id(
        g,
        full_rev_id(#[trigger] batch.rev@[i]@),
    ) by {
        assert(rows[i].root == seeds.root@[i]);
        assert(rows[i] == batch.rows(g, ids)[i]);
    }
    assert forall|n: usize| roots.to_set().contains(n) <==> batch_roots(g, batch).contains(n) by {
        assert(roots.contains(n) <==> seeds.roots().contains(n));
        if seeds.roots().contains(n) {
            let i = choose|i: int|
                0 <= i < seeds.root@.len() && #[trigger] seeds.root@[i] != ROOT_MISSING
                    && seeds.root@[i] as usize == n;
            assert(seeds.root@[i] == root_of_id(g, full_rev_id(batch.rev@[i]@)));
        }
        if batch_roots(g, batch).contains(n) {
            let i = choose|i: int|
                0 <= i < batch.rev@.len() && root_of_id(
                    g,
                    full_rev_id((#[trigger] batch.rev@[i])@),
                ) != ROOT_MISSING && root_of_id(g, full_rev_id(batch.rev@[i]@)) as usize == n;
            assert(seeds.root@[i] == root_of_id(g, full_rev_id(batch.rev@[i]@)));
        }
    }
    assert(roots.to_set() =~= batch_roots(g, batch));
}

/// The row of the output for a resolved row whose walk came to `leaf`, or to none.
pub open spec fn row_output(g: GraphModel, row: RowText, leaf: Option<usize>) -> OutputText {
    let cnt = match leaf {
        Some(l) => (g.swhid)(l),
        None => Seq::empty(),
    };
    OutputText {
        repo: row.repo,
        commit_id: row.commit_id,
        rel_path: row.rel_path,
        id: full_rev_id(row.rev_swhid),
        origin_url: row.origin_url,
        snapshot_swhid: Seq::empty(),
        rev_swhid: row.rev_swhid,
        cnt_swhid: cnt,
        qualified: if leaf is Some {
            qualified(cnt, row.origin_url, Seq::empty(), row.rev_swhid, row.rel_path)
        } else {
            Seq::empty()
        },
        status: if leaf is Some {
            "ok"@
        } else {
            "path_not_found"@
        },
    }
}

/// The row of the output for a resolved row: what the direct walk from its revision along its
/// path gives.
pub open spec fn final_row(g: GraphModel, row: RowText) -> OutputText {
    row_output(g, row, direct_leaf(g, full_rev_id(row.rev_swhid), row.rel_path))
}

/// The leaf of a resolved row by the walk over the directory map `m`, where the ids of the
/// names are those of `ids`.
pub open spec fn walked_leaf(
    g: GraphModel,
    ids: Map<Seq<u8>, u64>,
    m: Map<u64, Seq<Entry>>,
    row: RowText,
) -> Option<usize> {
    let (leaf, status) = walk(m, seed_row(g, ids, row.rev_swhid, row.rel_path, row.bin));
    if status == Status::Resolved {
        Some(leaf as usize)
    } else {
        None
    }
}

/// `out` is the output for the given groups of resolved rows by the walks over the directory
/// map `m`: row by row, in the bin of the row.
pub open spec fn is_walked(
    g: GraphModel,
    groups: Seq<Vec<OutRow>>,
    m: Map<u64, Seq<Entry>>,
    out: Seq<BinnedRow>,
) -> bool {
    let rows = flat_rows(groups);
    let ids = ids_below(g, row_components(rows), N_LABELS as int);
    &&& out.len() == rows.len()
    &&& forall|i: int|
        0 <= i < out.len() ==> (#[trigger] out[i]).row@ == row_output(
            g,
            rows[i],
            walked_leaf(g, ids, m, rows[i]),
        ) && out[i].bin == bin_of(rows[i].bin)
}

/// `m` is the directory map for the rows.
pub open spec fn is_row_map(
    g: GraphModel,
    rows: Seq<RowText>,
    num_nodes: usize,
    m: Map<u64, Seq<Entry>>,
) -> bool {
    let reached = reach(g, row_roots(g, rows), Set::empty());
    hydrated(
        g,
        reached,
        requested_below(g, row_components(rows), N_LABELS as int),
        reached.len() > SEQ_THRESHOLD,
        num_nodes,
        m,
    )
}

/// `out` is the output for the given groups of resolved rows: row by row, what the direct walk
/// gives, in the bin of the row.
pub open spec fn is_output(g: GraphModel, groups: Seq<Vec<OutRow>>, out: Seq<BinnedRow>) -> bool {
    let rows = flat_rows(groups);
    &&& out.len() == rows.len()
    &&& forall|i: int|
        0 <= i < out.len() ==> (#[trigger] out[i]).row@ == final_row(g, rows[i]) && out[i].bin
            == bin_of(rows[i].bin)
}

/// The root directories of the revisions of the rows.
pub open spec fn row_roots(g: GraphModel, rows: Seq<RowText>) -> Set<usize> {
    Set::new(
        |n: usize|
            exists|i: int|
                0 <= i < rows.len() && root_of_id(
                    g,
                    full_rev_id((#[trigger] rows[i]).rev_swhid),
                ) != ROOT_MISSING && root_of_id(g, full_rev_id(rows[i].rev_swhid)) as usize == n,
    )
}

/// The components of the paths of the rows.
pub open spec fn row_components(rows: Seq<RowText>) -> Set<Seq<u8>> {
    Set::new(
        |b: Seq<u8>|
            exists|i: int|
                0 <= i < rows.len() && component_bytes((#[trigger] rows[i]).rel_path).contains(b),
    )
}

/// The directories that the directory map for the rows has.
pub open spec fn map_dirs(g: GraphModel, rows: Seq<RowText>, num_nodes: usize) -> Set<u64> {
    let reached = reach(g, row_roots(g, rows), Set::empty());
    found_dirs(
        g,
        reached,
        requested_below(g, row_components(rows), N_LABELS as int),
        reached.len() > SEQ_THRESHOLD,
        num_nodes,
    )
}

/// `r` is the result for the groups of resolved rows, with `bounds` label offsets: the output, or
/// an error where the directory map has too many directories.
///
/// On every graph the output is that of the walks over the directory map; on a sound one it is
/// also that of the direct walks.
pub open spec fn is_result(
    g: GraphModel,
    inp: Input,
    nibbles: nat,
    bounds: nat,
    groups: Seq<Vec<OutRow>>,
    r: Result<Vec<BinnedRow>, HydrateError>,
) -> bool {
    let num_nodes = (bounds - 1) as usize;
    &&& is_resolved(g, inp, nibbles, groups)
    &&& match r {
        Ok(out) => {
            &&& map_dirs(g, flat_rows(groups), num_nodes).len() <= u32::MAX
            &&& exists|m: Map<u64, Seq<Entry>>|
                #![trigger is_walked(g, groups, m, out@)]
                is_row_map(g, flat_rows(groups), num_nodes, m) && is_walked(g, groups, m, out@)
            &&& is_sound(g, num_nodes) ==> is_output(g, groups, out@)
        },
        Err(e) => {
            &&& map_dirs(g, flat_rows(groups), num_nodes).len() > u32::MAX
            &&& e == HydrateError::TooManyDirs
        },
    }
}

/// The same texts once more.
fn clone_texts(v: &Vec<String>) -> (r: Vec<String>)
    ensures
        r@ == v@,
{
    let mut out: Vec<String> = Vec::new();
    let mut i: usize = 0;
    while i < v.len()
        invariant
            i <= v@.len(),
            out@ == v@.take(i as int),
        decreases v@.len() - i,
    {
        out.push(v[i].clone());
        assert(v@.take(i + 1) =~= v@.take(i as int).push(v@[i as int]));
        i = i + 1;
    }
    assert(v@.take(i as int) =~= v@);
    out
}

/// The texts, all of them there.
fn present_texts(v: &Vec<String>) -> (r: Vec<Option<String>>)
    ensures
        r@.len() == v@.len(),
        forall|i: int| 0 <= i < v@.len() ==> #[trigger] r@[i] == Some(v@[i]),
{
    let mut out: Vec<Option<String>> = Vec::new();
    let mut i: usize = 0;
    while i < v.len()
        invariant
            i <= v@.len(),
            out@.len() == i,
            forall|k: int| 0 <= k < i ==> #[trigger] out@[k] == Some(v@[k]),
        decreases v@.len() - i,
    {
        out.push(Some(v[i].clone()));
        i = i + 1;
    }
    out
}

/// Resolves the input, from metadata to output, with all tables in memory.
///
/// The order of the rows is that of the groups, which is not determined.
pub fn resolve_input<G: BackwardGraph>(
    graph: &G,
    offsets: &LabelOffsets,
    inp: &Input,
    prefix_nibbles: usize,
    k: usize,
) -> (r: Result<Vec<BinnedRow>, HydrateError>)
    requires
        inp.wf(),
        k < usize::MAX,
        0 < offsets@.len() <= usize::MAX,
        rounded_to_words((offsets@.len() - 1) as nat) <= u64::MAX,
        directories_within(graph, rounded_to_words((offsets@.len() - 1) as nat)),
        names_within(graph),
    ensures
        forall|g: GraphModel| #[trigger]
            bidirectional_is(graph, g) ==> exists|groups: Seq<Vec<OutRow>>|
                is_result(g, *inp, prefix_nibbles as nat, offsets@.len(), groups, r),
{
    let ghost num_nodes = (offsets@.len() - 1) as usize;
    let groups = resolve_candidates(graph, inp, prefix_nibbles);
    let cols = cands_columns(&groups);
    let ghost rows = flat_rows(groups@);
    let paths = present_texts(&cols.rel_path);
    let distinct = collect_distinct_components(&paths);
    let names = build_names(graph, &distinct);
    let batch = SeedBatch {
        repo: clone_texts(&cols.repo),
        commit_id: clone_texts(&cols.commit_id),
        rel_path: clone_texts(&cols.rel_path),
        rev: clone_texts(&cols.rev_swhid),
        bin: cols.bin,
    };
    proof {
        lemma_components(paths@, batch.rel_path@, rows);
        assert forall|i: int, c: int|
            #![trigger component_bytes(batch.rel_path@[i]@)[c]]
            0 <= i < batch.rel_path@.len() && 0 <= c < component_bytes(
                batch.rel_path@[i]@,
            ).len() implies distinct@.contains(component_bytes(batch.rel_path@[i]@)[c]) by {
            assert(rows[i].rel_path == batch.rel_path@[i]@);
            let bytes = component_bytes(batch.rel_path@[i]@);
            assert(bytes.contains(bytes[c]));
        }
        assert forall|g: GraphModel| #[trigger] graph_is(graph, g) implies batch_roots(g, &batch)
            == row_roots(g, rows) by {
            lemma_row_roots(g, &batch, rows);
        }
    }
    let v = match resolve_rows(graph, offsets, &distinct, &names, &batch, k) {
        Ok(v) => v,
        Err(e) => {
            assert forall|g: GraphModel| #[trigger] bidirectional_is(graph, g) implies is_result(
                g,
                *inp,
                prefix_nibbles as nat,
                offsets@.len(),
                groups@,
                Err(e),
            ) by {
                assert(graph_is(graph, g));
            }
            return Err(e);
        },
    };
    let pass = PassThrough {
        repo: cols.repo,
        commit_id: cols.commit_id,
        rel_path: cols.rel_path,
        id: cols.id,
        origin_url: cols.origin_url,
        rev_swhid: cols.rev_swhid,
    };
    let out = emit_batch(graph, &pass, &v.seeds, &v.leaf, &v.status, 0).unwrap();
    assert forall|g: GraphModel| #[trigger] bidirectional_is(graph, g) implies is_result(
        g,
        *inp,
        prefix_nibbles as nat,
        offsets@.len(),
        groups@,
        Ok(out),
    ) by {
        assert(graph_is(graph, g));
        let ids = ids_below(g, distinct@, N_LABELS as int);
        let reached = reach(g, batch_roots(g, &batch), Set::empty());
        let want = requested_below(g, distinct@, N_LABELS as int);
        let m = choose|m: Map<u64, Seq<Entry>>|
            #![trigger walks_are(m, v)]
            hydrated(g, reached, want, reached.len() > SEQ_THRESHOLD, num_nodes, m) && walks_are(
                m,
                v,
            );
        assert(is_row_map(g, rows, num_nodes, m));
        assert forall|i: int| 0 <= i < out@.len() implies (#[trigger] out@[i]).row@ == row_output(
            g,
            rows[i],
            walked_leaf(g, ids, m, rows[i]),
        ) && out@[i].bin == bin_of(rows[i].bin) by {
            assert(seed_rows(v.seeds)[i] == batch.rows(g, ids)[i]);
            assert(out@[i].row@ == pass.output(g, i, v.leaf@[0 + i], v.status@[0 + i]));
            assert(rows[i].rel_path == pass.rel_path@[i]@);
            assert(v.leaf@[i] == walk(m, seed_rows(v.seeds)[i]).0);
        }
        assert(is_walked(g, groups@, m, out@));
        if is_sound(g, num_nodes) {
            assert forall|i: int| 0 <= i < out@.len() implies (#[trigger] out@[i]).row@
                == final_row(g, rows[i]) && out@[i].bin == bin_of(rows[i].bin) by {
                assert(row_agrees(g, &batch, v.leaf@, v.status@, i));
                assert(seed_rows(v.seeds)[i] == batch.rows(g, ids)[i]);
                assert(out@[i].row@ == pass.output(g, i, v.leaf@[0 + i], v.status@[0 + i]));
                assert(rows[i].rel_path == pass.rel_path@[i]@);
            }
            assert(is_output(g, groups@, out@));
        }
    }
    Ok(out)
}

/// The components of the paths are those of the rows.
proof fn lemma_components(paths: Seq<Option<String>>, rel: Seq<String>, rows: Seq<RowText>)
    requires
        paths.len() == rows.len(),
        rel.len() == rows.len(),
        forall|i: int| 0 <= i < rows.len() ==> #[trigger] paths[i] == Some(rel[i]),
        forall|i: int| 0 <= i < rows.len() ==> rel[i]@ == (#[trigger] rows[i]).rel_path,
    ensures
        all_components(paths) == row_components(rows),
{
    assert forall|b: Seq<u8>| all_components(paths).contains(b) <==> row_components(rows).contains(
        b,
    ) by {
        if all_components(paths).contains(b) {
            let i = choose|i: int|
                0 <= i < paths.len() && #[trigger] paths[i] is Some && component_bytes(
                    paths[i]->0@,
                ).contains(b);
            assert(component_bytes(rows[i].rel_path).contains(b));
        }
        if row_components(rows).contains(b) {
            let i = choose|i: int|
                0 <= i < rows.len() && component_bytes((#[trigger] rows[i]).rel_path).contains(b);
            assert(paths[i] is Some);
        }
    }
    assert(all_components(paths) =~= row_components(rows));
}

/// The roots of the candidates are those of the rows.
proof fn lemma_row_roots(g: GraphModel, batch: &SeedBatch, rows: Seq<RowText>)
    requires
        batch.rev@.len() == rows.len(),
        forall|i: int| 0 <= i < rows.len() ==> batch.rev@[i]@ == (#[trigger] rows[i]).rev_swhid,
    ensures
        batch_roots(g, batch) == row_roots(g, rows),
{
    assert forall|n: usize| batch_roots(g, batch).contains(n) <==> row_roots(g, rows).contains(
        n,
    ) by {
        if batch_roots(g, batch).contains(n) {
            let i = choose|i: int|
                0 <= i < batch.rev@.len() && root_of_id(
                    g,
                    full_rev_id((#[trigger] batch.rev@[i])@),
                ) != ROOT_MISSING && root_of_id(g, full_rev_id(batch.rev@[i]@)) as usize == n;
            assert(rows[i].rev_swhid == batch.rev@[i]@);
        }
        if row_roots(g, rows).contains(n) {
            let i = choose|i: int|
                0 <= i < rows.len() && root_of_id(
                    g,
                    full_rev_id((#[trigger] rows[i]).rev_swhid),
                ) != ROOT_MISSING && root_of_id(g, full_rev_id(rows[i].rev_swhid)) as usize == n;
            assert(batch.rev@[i]@ == rows[i].rev_swhid);
        }
    }
    assert(batch_roots(g, batch) =~= row_roots(g, rows));
}

} // verus!
