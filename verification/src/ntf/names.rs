//! The names on the paths, and their ids in the label table.
//!
//! The label table maps ids to names, not names to ids. So the distinct components of all
//! paths are collected first; then one pass over the table finds their ids.

use vstd::prelude::*;

use crate::ntf::common::{fid_capacity, Names, RequestedFid, N_LABELS};
use crate::ntf::graph::{graph_is, Graph, GraphModel};
use crate::ntf::maps::{ByteSet, NameIds};
use crate::ntf::text::{bytes_view, component_bytes, path_components};

verus! {

/// The number of ids in one chunk of the pass over the label table.
pub const LABEL_CHUNK: u64 = 1_048_576;

/// An empty set of byte strings.
pub fn byte_set() -> (r: ByteSet)
    ensures
        r@ == Set::<Seq<u8>>::empty(),
{
    ByteSet::new()
}

/// The components of the paths that are there.
pub open spec fn all_components(paths: Seq<Option<String>>) -> Set<Seq<u8>> {
    Set::new(
        |b: Seq<u8>|
            exists|i: int|
                0 <= i < paths.len() && #[trigger] paths[i] is Some && component_bytes(
                    paths[i]->0@,
                ).contains(b),
    )
}

proof fn lemma_components_push(paths: Seq<Option<String>>, path: Option<String>)
    ensures
        all_components(paths.push(path)) == (match path {
            Some(p) => all_components(paths).union(component_bytes(p@).to_set()),
            None => all_components(paths),
        }),
{
    let after = paths.push(path);
    let want = match path {
        Some(p) => all_components(paths).union(component_bytes(p@).to_set()),
        None => all_components(paths),
    };
    assert forall|b: Seq<u8>| all_components(after).contains(b) implies want.contains(b) by {
        let i = choose|i: int|
            0 <= i < after.len() && #[trigger] after[i] is Some && component_bytes(
                after[i]->0@,
            ).contains(b);
        if i < paths.len() {
            assert(paths[i] == after[i]);
        }
    }
    assert forall|b: Seq<u8>| want.contains(b) implies all_components(after).contains(b) by {
        if all_components(paths).contains(b) {
            let i = choose|i: int|
                0 <= i < paths.len() && #[trigger] paths[i] is Some && component_bytes(
                    paths[i]->0@,
                ).contains(b);
            assert(after[i] == paths[i]);
        } else {
            assert(after[paths.len() as int] == path);
        }
    }
    assert(all_components(after) =~= want);
}

/// Adds the components of the paths that are there.
pub fn add_components(distinct: &mut ByteSet, paths: &Vec<Option<String>>)
    ensures
        final(distinct)@ == old(distinct)@.union(all_components(paths@)),
{
    let ghost before = distinct@;
    let mut i: usize = 0;
    assert(distinct@ =~= before.union(all_components(paths@.take(0))));
    while i < paths.len()
        invariant
            i <= paths@.len(),
            distinct@ == before.union(all_components(paths@.take(i as int))),
        decreases paths@.len() - i,
    {
        let ghost now = distinct@;
        proof {
            lemma_components_push(paths@.take(i as int), paths@[i as int]);
            assert(paths@.take(i + 1) =~= paths@.take(i as int).push(paths@[i as int]));
        }
        if let Some(p) = &paths[i] {
            let comps = path_components(p.as_str());
            let ghost bytes = bytes_view(comps@);
            let mut k: usize = 0;
            assert(now.union(bytes.take(0).to_set()) =~= now);
            while k < comps.len()
                invariant
                    k <= comps@.len(),
                    bytes == bytes_view(comps@),
                    distinct@ == now.union(bytes.take(k as int).to_set()),
                decreases comps@.len() - k,
            {
                let c = comps[k].clone();
                assert(c@ =~= bytes[k as int]);
                distinct.insert(c);
                proof {
                    let short = bytes.take(k as int);
                    let long = bytes.take(k + 1);
                    assert(long =~= short.push(bytes[k as int]));
                    assert forall|b: Seq<u8>| #[trigger] long.contains(b) <==> short.contains(b)
                        || b == bytes[k as int] by {
                        assert(long[k as int] == bytes[k as int]);
                        if short.contains(b) {
                            let a = choose|a: int| 0 <= a < short.len() && short[a] == b;
                            assert(long[a] == b);
                        }
                        if long.contains(b) {
                            let a = choose|a: int| 0 <= a < long.len() && long[a] == b;
                            if a < k {
                                assert(short[a] == b);
                            }
                        }
                    }
                    assert(distinct@ =~= now.union(long.to_set()));
                }
                k = k + 1;
            }
            proof {
                assert(bytes.take(k as int) =~= bytes);
                assert(distinct@ =~= before.union(all_components(paths@.take(i + 1))));
            }
        }
        i = i + 1;
    }
    assert(paths@.take(i as int) =~= paths@);
}

/// The components of the paths that are there.
pub fn collect_distinct_components(paths: &Vec<Option<String>>) -> (r: ByteSet)
    ensures
        r@ == all_components(paths@),
{
    let mut distinct = byte_set();
    add_components(&mut distinct, paths);
    assert(distinct@ =~= all_components(paths@));
    distinct
}

/// A name of the label table with its id.
pub struct LabelMatch {
    pub name: Vec<u8>,
    pub id: u64,
}

/// The names of the label table with the ids from `lo` up to `hi` that are in `distinct`.
pub open spec fn matches_in(g: GraphModel, distinct: Set<Seq<u8>>, lo: int, hi: int) -> Seq<
    (Seq<u8>, u64),
>
    decreases hi - lo,
{
    if hi <= lo {
        Seq::empty()
    } else {
        let before = matches_in(g, distinct, lo, hi - 1);
        let name = (g.label_name)((hi - 1) as u64);
        if distinct.contains(name) {
            before.push((name, (hi - 1) as u64))
        } else {
            before
        }
    }
}

/// Names with ids as mathematics sees them.
pub open spec fn matches_view(v: Seq<LabelMatch>) -> Seq<(Seq<u8>, u64)> {
    v.map_values(|m: LabelMatch| (m.name@, m.id))
}

/// Finds the names in `distinct` among those with the ids from `start` up to `end`.
pub fn scan_labels<G: Graph>(graph: &G, distinct: &ByteSet, start: u64, end: u64) -> (r: Vec<
    LabelMatch,
>)
    ensures
        forall|g: GraphModel| #[trigger]
            graph_is(graph, g) ==> matches_view(r@) == matches_in(
                g,
                distinct@,
                start as int,
                end as int,
            ),
        forall|k: int| 0 <= k < r@.len() ==> start <= (#[trigger] r@[k]).id < end,
{
    let mut out: Vec<LabelMatch> = Vec::new();
    assert(matches_view(out@) =~= Seq::empty());
    let mut id: u64 = start;
    while id < end
        invariant
            start <= id,
            id <= end || id == start,
            forall|k: int| 0 <= k < out@.len() ==> start <= (#[trigger] out@[k]).id < id,
            forall|g: GraphModel| #[trigger]
                graph_is(graph, g) ==> matches_view(out@) == matches_in(
                    g,
                    distinct@,
                    start as int,
                    id as int,
                ),
        decreases end - id,
    {
        let ghost before = matches_view(out@);
        let name = graph.label_name(id);
        let ghost bytes = name@;
        let hit: bool = distinct.contains(&name);
        if hit {
            out.push(LabelMatch { name, id });
            assert(matches_view(out@) =~= before.push((bytes, id)));
        }
        id = id + 1;
    }
    out
}

/// The ids of the names in `distinct` among those with an id below `n`. Where two ids have
/// one name, the greater counts.
pub open spec fn ids_below(g: GraphModel, distinct: Set<Seq<u8>>, n: int) -> Map<Seq<u8>, u64>
    decreases n,
{
    if n <= 0 {
        Map::empty()
    } else {
        let before = ids_below(g, distinct, n - 1);
        let name = (g.label_name)((n - 1) as u64);
        if distinct.contains(name) {
            before.insert(name, (n - 1) as u64)
        } else {
            before
        }
    }
}

/// The ids below `n` whose name is in `distinct`.
pub open spec fn requested_below(g: GraphModel, distinct: Set<Seq<u8>>, n: int) -> Set<int> {
    Set::new(|id: int| 0 <= id < n && distinct.contains((g.label_name)(id as u64)))
}

/// The names with their ids added, one behind the other.
spec fn with_matches(ids: Map<Seq<u8>, u64>, found: Seq<(Seq<u8>, u64)>) -> Map<Seq<u8>, u64>
    decreases found.len(),
{
    if found.len() == 0 {
        ids
    } else {
        with_matches(ids, found.drop_last()).insert(found.last().0, found.last().1)
    }
}

/// The ids added.
spec fn with_ids(set: Set<int>, found: Seq<(Seq<u8>, u64)>) -> Set<int>
    decreases found.len(),
{
    if found.len() == 0 {
        set
    } else {
        with_ids(set, found.drop_last()).insert(found.last().1 as int)
    }
}

proof fn lemma_with_matches(g: GraphModel, distinct: Set<Seq<u8>>, lo: int, hi: int)
    requires
        0 <= lo <= hi <= u64::MAX,
    ensures
        with_matches(ids_below(g, distinct, lo), matches_in(g, distinct, lo, hi)) == ids_below(
            g,
            distinct,
            hi,
        ),
        with_ids(requested_below(g, distinct, lo), matches_in(g, distinct, lo, hi))
            == requested_below(g, distinct, hi),
    decreases hi - lo,
{
    if lo < hi {
        lemma_with_matches(g, distinct, lo, hi - 1);
        let before = matches_in(g, distinct, lo, hi - 1);
        let name = (g.label_name)((hi - 1) as u64);
        if distinct.contains(name) {
            assert(before.push((name, (hi - 1) as u64)).drop_last() =~= before);
            assert(requested_below(g, distinct, hi) =~= requested_below(
                g,
                distinct,
                hi - 1,
            ).insert(hi - 1));
        } else {
            assert(requested_below(g, distinct, hi) =~= requested_below(g, distinct, hi - 1));
        }
    }
}

/// Adds names that were found, with their ids.
fn add_matches(names: &mut Names, found: &Vec<LabelMatch>)
    requires
        old(names).requested.wf(),
        forall|k: int| 0 <= k < found@.len() ==> (#[trigger] found@[k]).id < fid_capacity(),
    ensures
        final(names).requested.wf(),
        final(names).requested@ == with_ids(old(names).requested@, matches_view(found@)),
        final(names).component_fid@ == with_matches(
            old(names).component_fid@,
            matches_view(found@),
        ),
{
    let ghost all = matches_view(found@);
    let mut k: usize = 0;
    while k < found.len()
        invariant
            k <= found@.len(),
            all == matches_view(found@),
            names.requested.wf(),
            forall|k: int| 0 <= k < found@.len() ==> (#[trigger] found@[k]).id < fid_capacity(),
            names.requested@ == with_ids(old(names).requested@, all.take(k as int)),
            names.component_fid@ == with_matches(old(names).component_fid@, all.take(k as int)),
        decreases found@.len() - k,
    {
        proof {
            assert(all.take(k + 1).drop_last() =~= all.take(k as int));
            assert(all.take(k + 1).last() == all[k as int]);
        }
        let name = found[k].name.clone();
        assert(name@ =~= found@[k as int].name@);
        names.requested.set(found[k].id);
        names.component_fid.insert(name, found[k].id);
        k = k + 1;
    }
    assert(all.take(k as int) =~= all);
}

/// `names` holds the ids below `n` of the names in `distinct`.
pub open spec fn names_are(names: &Names, g: GraphModel, distinct: Set<Seq<u8>>, n: int) -> bool {
    &&& names.requested@ == requested_below(g, distinct, n)
    &&& names.component_fid@ == ids_below(g, distinct, n)
}

/// Adds the names of one chunk that were found by [`scan_labels`]: those with the ids from
/// `start` up to `end`, where all below `start` were added before.
pub fn add_chunk<G: Graph>(
    graph: &G,
    distinct: &ByteSet,
    start: u64,
    end: u64,
    found: &Vec<LabelMatch>,
    names: &mut Names,
)
    requires
        start <= end <= N_LABELS,
        old(names).requested.wf(),
        forall|k: int| 0 <= k < found@.len() ==> start <= (#[trigger] found@[k]).id < end,
        forall|g: GraphModel| #[trigger]
            graph_is(graph, g) ==> {
                &&& matches_view(found@) == matches_in(g, distinct@, start as int, end as int)
                &&& names_are(old(names), g, distinct@, start as int)
            },
    ensures
        final(names).requested.wf(),
        forall|g: GraphModel| #[trigger]
            graph_is(graph, g) ==> names_are(final(names), g, distinct@, end as int),
{
    add_matches(names, found);
    assert forall|g: GraphModel| #[trigger] graph_is(graph, g) implies names_are(
        names,
        g,
        distinct@,
        end as int,
    ) by {
        lemma_with_matches(g, distinct@, start as int, end as int);
    }
}

/// Names of which nothing is known yet.
pub fn empty_names() -> (r: Names)
    ensures
        r.requested.wf(),
        r.requested@ == Set::<int>::empty(),
        r.component_fid@ == Map::<Seq<u8>, u64>::empty(),
{
    Names { requested: RequestedFid::new(), component_fid: NameIds::new() }
}

/// Finds the ids of the names in `distinct`, in one pass over the label table, chunk by
/// chunk.
pub fn build_names<G: Graph>(graph: &G, distinct: &ByteSet) -> (r: Names)
    ensures
        r.requested.wf(),
        forall|g: GraphModel| #[trigger]
            graph_is(graph, g) ==> names_are(&r, g, distinct@, N_LABELS as int),
{
    let mut names = empty_names();
    assert forall|g: GraphModel| #[trigger] graph_is(graph, g) implies names_are(
        &names,
        g,
        distinct@,
        0,
    ) by {
        assert(requested_below(g, distinct@, 0) =~= Set::<int>::empty());
    }
    let mut start: u64 = 0;
    while start < N_LABELS
        invariant
            start <= N_LABELS,
            names.requested.wf(),
            forall|g: GraphModel| #[trigger]
                graph_is(graph, g) ==> names_are(&names, g, distinct@, start as int),
        decreases N_LABELS - start,
    {
        let end: u64 = if N_LABELS - start < LABEL_CHUNK {
            N_LABELS
        } else {
            start + LABEL_CHUNK
        };
        let found = scan_labels(graph, distinct, start, end);
        add_chunk(graph, distinct, start, end, &found, &mut names);
        start = end;
    }
    names
}

} // verus!
