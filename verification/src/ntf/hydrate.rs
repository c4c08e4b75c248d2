//! The one heavy scan: the labels of every reachable directory, front to back, into the
//! in-memory directory map.
//!
//! The nodes are split into contiguous bands of about equally many label bits. A band is
//! scanned in increasing node order into a flat shard, so that the shards, one behind the
//! other in band order, are already grouped and sorted by directory.

use vstd::prelude::*;

use crate::ntf::common::{csr_row, DirMap, NodeBitset, RequestedFid};
use crate::ntf::entries::{
    collect_entries, dir_entries, index_row, names_ascend, names_within, row_is, Entry,
};
use crate::ntf::graph::{graph_is, Graph, GraphModel, NodeType};
use crate::ntf::maps::NodeRanks;
use crate::ntf::offsets::{band_bounds, bounds_are, LabelOffsets};

verus! {

/// The default number of bands.
pub const DEFAULT_K: usize = 16;

/// The number of reachable directories above which the labels are read front to back
/// instead of by seeking to the reachable directories alone.
pub const SEQ_THRESHOLD: u64 = 2_400_000;

/// A directory with its row of entries.
pub type DirRow = (u64, Seq<Entry>);

/// The result of scanning one band: its directories in increasing order, each with its row
/// of entries, in flat arrays. Its view is that sequence of rows.
pub struct WorkerShard {
    dirs: Vec<u64>,
    offsets: Vec<u64>,
    fid: Vec<u64>,
    child: Vec<u64>,
    ty: Vec<u8>,
}

impl View for WorkerShard {
    type V = Seq<DirRow>;

    closed spec fn view(&self) -> Seq<DirRow> {
        Seq::new(self.dirs@.len(), |i: int| (self.dirs@[i], self.row(i)))
    }
}

impl WorkerShard {
    closed spec fn row(&self, i: int) -> Seq<Entry> {
        csr_row(
            self.fid@,
            self.child@,
            self.ty@,
            self.offsets@[i] as int,
            self.offsets@[i + 1] as int,
        )
    }

    /// The rows fill the three entry arrays, one behind the other, and the names of each
    /// row ascend.
    pub closed spec fn wf(&self) -> bool {
        &&& self.offsets@.len() == self.dirs@.len() + 1
        &&& self.offsets@[0] == 0
        &&& self.offsets@.last() == self.fid@.len()
        &&& self.child@.len() == self.fid@.len()
        &&& self.ty@.len() == self.fid@.len()
        &&& forall|i: int, j: int|
            0 <= i <= j < self.offsets@.len() ==> self.offsets@[i] <= self.offsets@[j]
        &&& forall|i: int| 0 <= i < self.dirs@.len() ==> names_ascend(#[trigger] self.row(i))
    }

    /// A shard without rows.
    pub fn new() -> (r: WorkerShard)
        ensures
            r.wf(),
            r@ == Seq::<DirRow>::empty(),
    {
        let mut offsets: Vec<u64> = Vec::new();
        offsets.push(0);
        let shard = WorkerShard {
            dirs: Vec::new(),
            offsets,
            fid: Vec::new(),
            child: Vec::new(),
            ty: Vec::new(),
        };
        assert(shard@ =~= Seq::<DirRow>::empty());
        shard
    }

    /// Appends the row of one directory.
    pub fn push_row(&mut self, dir: u64, row: &Vec<Entry>)
        requires
            old(self).wf(),
            names_ascend(row@),
        ensures
            final(self).wf(),
            final(self)@ == old(self)@.push((dir, row@)),
    {
        let ghost before = *self;
        let n: usize = self.fid.len();
        let mut j: usize = 0;
        while j < row.len()
            invariant
                j <= row@.len(),
                self.dirs@ == before.dirs@,
                self.offsets@ == before.offsets@,
                n == before.fid@.len(),
                before.child@.len() == n,
                before.ty@.len() == n,
                self.fid@.len() == n + j,
                self.child@.len() == n + j,
                self.ty@.len() == n + j,
                forall|i: int| 0 <= i < n ==> self.fid@[i] == before.fid@[i],
                forall|i: int| 0 <= i < n ==> self.child@[i] == before.child@[i],
                forall|i: int| 0 <= i < n ==> self.ty@[i] == before.ty@[i],
                forall|i: int|
                    n <= i < n + j ==> row@[i - n] == (
                        #[trigger] self.fid@[i],
                        self.child@[i],
                        self.ty@[i],
                    ),
            decreases row@.len() - j,
        {
            let e: Entry = row[j];
            self.fid.push(e.0);
            self.child.push(e.1);
            self.ty.push(e.2);
            j = j + 1;
        }
        self.dirs.push(dir);
        let end: usize = self.fid.len();
        self.offsets.push(end as u64);
        proof {
            let d = before.dirs@.len() as int;
            assert(self.row(d) =~= row@);
            assert forall|i: int| 0 <= i < d implies self.row(i) =~= before.row(i) by {
                assert(before.offsets@[i + 1] <= before.offsets@[d]);
            }
            assert(self@ =~= before@.push((dir, row@)));
            assert forall|i: int| 0 <= i < self.dirs@.len() implies names_ascend(
                #[trigger] self.row(i),
            ) by {
                if i < d {
                    assert(self.row(i) == before.row(i));
                }
            }
        }
    }

    /// The number of directories.
    pub fn num_dirs(&self) -> (r: usize)
        requires
            self.wf(),
        ensures
            r == self@.len(),
    {
        self.dirs.len()
    }

    /// The number of entries of all directories.
    pub fn num_entries(&self) -> (r: usize)
        requires
            self.wf(),
        ensures
            r == rows_entries(self@),
    {
        proof {
            self.lemma_entries(self.dirs@.len() as int);
            assert(self@.take(self.dirs@.len() as int) =~= self@);
        }
        self.fid.len()
    }

    proof fn lemma_entries(&self, i: int)
        requires
            self.wf(),
            0 <= i <= self.dirs@.len(),
        ensures
            rows_entries(self@.take(i)) == self.offsets@[i],
        decreases i,
    {
        if i > 0 {
            self.lemma_entries(i - 1);
            assert(self@.take(i).drop_last() =~= self@.take(i - 1));
            assert(self.offsets@[i - 1] <= self.offsets@[i]);
        }
    }
}

/// The number of entries in all rows.
pub open spec fn rows_entries(rows: Seq<DirRow>) -> nat
    decreases rows.len(),
{
    if rows.len() == 0 {
        0
    } else {
        rows_entries(rows.drop_last()) + rows.last().1.len()
    }
}

/// Whether the scan looks at node `n`: it is reachable and, where every directory is read,
/// a directory.
pub open spec fn scanned(g: GraphModel, reached: Set<int>, sequential: bool, n: usize) -> bool {
    reached.contains(n as int) && (sequential ==> (g.node_type)(n) == NodeType::Directory)
}

/// Whether the scan finds something in node `n`.
pub open spec fn found(
    g: GraphModel,
    reached: Set<int>,
    want: Set<int>,
    sequential: bool,
    n: usize,
) -> bool {
    scanned(g, reached, sequential, n) && dir_entries(g, want, n).len() > 0
}

/// The directories of the rows strictly ascend.
pub open spec fn dirs_ascend(rows: Seq<DirRow>) -> bool {
    forall|i: int, j: int| 0 <= i < j < rows.len() ==> rows[i].0 < rows[j].0
}

/// The rows are those of nodes from `lo` to `hi`, in increasing order, and none is empty.
pub open spec fn rows_between(rows: Seq<DirRow>, lo: usize, hi: usize) -> bool {
    &&& dirs_ascend(rows)
    &&& forall|i: int|
        0 <= i < rows.len() ==> lo <= (#[trigger] rows[i]).0 < hi && rows[i].1.len() > 0
}

/// `rows` is what scanning the nodes from `lo` to `hi` gives: in increasing order, each
/// node in which something is found, with the index of its requested entries.
pub open spec fn scan_is(
    g: GraphModel,
    reached: Set<int>,
    want: Set<int>,
    sequential: bool,
    lo: usize,
    hi: usize,
    rows: Seq<DirRow>,
) -> bool {
    &&& dirs_ascend(rows)
    &&& forall|i: int|
        0 <= i < rows.len() ==> {
            let n = (#[trigger] rows[i]).0 as usize;
            &&& n == rows[i].0
            &&& lo <= n < hi
            &&& found(g, reached, want, sequential, n)
            &&& row_is(rows[i].1, dir_entries(g, want, n))
        }
    &&& forall|n: usize|
        lo <= n < hi && #[trigger] found(g, reached, want, sequential, n) ==> exists|i: int|
            0 <= i < rows.len() && (#[trigger] rows[i]).0 == n
}

/// Scans of adjoining bands, one behind the other, are the scan of both.
pub proof fn lemma_scan_add(
    g: GraphModel,
    reached: Set<int>,
    want: Set<int>,
    sequential: bool,
    lo: usize,
    mid: usize,
    hi: usize,
    a: Seq<DirRow>,
    b: Seq<DirRow>,
)
    requires
        lo <= mid <= hi,
        scan_is(g, reached, want, sequential, lo, mid, a),
        scan_is(g, reached, want, sequential, mid, hi, b),
    ensures
        scan_is(g, reached, want, sequential, lo, hi, a + b),
{
    let rows = a + b;
    assert forall|i: int, j: int| 0 <= i < j < rows.len() implies rows[i].0 < rows[j].0 by {
        if i < a.len() && j >= a.len() {
            assert(a[i].0 < mid);
            assert(b[j - a.len()].0 >= mid);
        }
    }
    assert forall|i: int| 0 <= i < rows.len() implies {
        let n = (#[trigger] rows[i]).0 as usize;
        &&& n == rows[i].0
        &&& lo <= n < hi
        &&& found(g, reached, want, sequential, n)
        &&& row_is(rows[i].1, dir_entries(g, want, n))
    } by {
        if i < a.len() {
            assert(rows[i] == a[i]);
        } else {
            assert(rows[i] == b[i - a.len()]);
        }
    }
    assert forall|n: usize|
        lo <= n < hi && #[trigger] found(g, reached, want, sequential, n) implies exists|i: int|
        0 <= i < rows.len() && (#[trigger] rows[i]).0 == n by {
        if n < mid {
            let i = choose|i: int| 0 <= i < a.len() && (#[trigger] a[i]).0 == n;
            assert(rows[i].0 == n);
        } else {
            let i = choose|i: int| 0 <= i < b.len() && (#[trigger] b[i]).0 == n;
            assert(rows[i + a.len()].0 == n);
        }
    }
}

/// Scans the nodes from `lo` to `hi` in increasing order.
///
/// With `sequential`, the labels of every directory are read, reachable or not, so that the
/// label file is read front to back; otherwise only those of the reachable nodes.
pub fn scan_band<G: Graph>(
    graph: &G,
    reached: &NodeBitset,
    requested: &RequestedFid,
    lo: usize,
    hi: usize,
    sequential: bool,
) -> (r: WorkerShard)
    requires
        reached.wf(),
        hi <= reached.capacity(),
        requested.wf(),
        names_within(graph),
    ensures
        r.wf(),
        rows_between(r@, lo, hi),
        forall|g: GraphModel| #[trigger]
            graph_is(graph, g) ==> scan_is(g, reached@, requested@, sequential, lo, hi, r@),
{
    let mut shard = WorkerShard::new();
    let mut n: usize = lo;
    while n < hi
        invariant
            lo <= n,
            n <= hi || n == lo,
            reached.wf(),
            hi <= reached.capacity(),
            requested.wf(),
            names_within(graph),
            shard.wf(),
            rows_between(shard@, lo, n),
            forall|g: GraphModel| #[trigger]
                graph_is(graph, g) ==> scan_is(
                    g,
                    reached@,
                    requested@,
                    sequential,
                    lo,
                    n,
                    shard@,
                ),
        decreases hi - n,
    {
        let ghost rows = shard@;
        let mut reachable: bool = false;
        let mut read: bool = false;
        if sequential {
            if graph.node_type(n) == NodeType::Directory {
                read = true;
                reachable = reached.is_set(n);
            }
        } else if reached.is_set(n) {
            read = true;
            reachable = true;
        }
        let mut row: Vec<Entry> = Vec::new();
        if read {
            if reachable {
                let buf = collect_entries(graph, requested, n);
                row = index_row(buf);
                if row.len() > 0 {
                    shard.push_row(n as u64, &row);
                }
            } else {
                // Consumed, to keep the read of the label file sequential.
                let _ = graph.labeled_successors(n);
            }
        }
        assert forall|g: GraphModel| #[trigger] graph_is(graph, g) implies scan_is(
            g,
            reached@,
            requested@,
            sequential,
            lo,
            (n + 1) as usize,
            shard@,
        ) by {
            assert(scan_is(g, reached@, requested@, sequential, lo, n, rows));
            let one: Seq<DirRow> = if found(g, reached@, requested@, sequential, n) {
                seq![(n as u64, row@)]
            } else {
                Seq::empty()
            };
            assert(shard@ =~= rows + one);
            assert(scan_is(g, reached@, requested@, sequential, n, (n + 1) as usize, one)) by {
                if one.len() > 0 {
                    assert(one[0].0 == n);
                }
            }
            lemma_scan_add(
                g,
                reached@,
                requested@,
                sequential,
                lo,
                n,
                (n + 1) as usize,
                rows,
                one,
            );
        }
        n = n + 1;
    }
    assert forall|g: GraphModel| #[trigger] graph_is(graph, g) implies scan_is(
        g,
        reached@,
        requested@,
        sequential,
        lo,
        hi,
        shard@,
    ) by {
        assert(scan_is(g, reached@, requested@, sequential, lo, n, shard@));
    }
    shard
}

/// The rows of all shards, one shard behind the other.
pub open spec fn all_rows(shards: Seq<WorkerShard>) -> Seq<DirRow>
    decreases shards.len(),
{
    if shards.len() == 0 {
        Seq::empty()
    } else {
        all_rows(shards.drop_last()) + shards.last()@
    }
}

/// The rows by directory. Where a directory has two rows, the later one counts.
pub open spec fn rows_map(rows: Seq<DirRow>) -> Map<u64, Seq<Entry>>
    decreases rows.len(),
{
    if rows.len() == 0 {
        Map::empty()
    } else {
        rows_map(rows.drop_last()).insert(rows.last().0, rows.last().1)
    }
}

/// The rank of each directory of the rows: the position of its last row.
pub open spec fn ranks(rows: Seq<DirRow>) -> Map<u64, u32>
    decreases rows.len(),
{
    if rows.len() == 0 {
        Map::empty()
    } else {
        ranks(rows.drop_last()).insert(rows.last().0, (rows.len() - 1) as u32)
    }
}

proof fn lemma_ranks(rows: Seq<DirRow>, dir: u64)
    requires
        rows.len() <= u32::MAX,
    ensures
        ranks(rows).contains_key(dir) <==> rows_map(rows).contains_key(dir),
        ranks(rows).contains_key(dir) ==> {
            &&& ranks(rows)[dir] < rows.len()
            &&& rows[ranks(rows)[dir] as int].0 == dir
            &&& rows_map(rows)[dir] == rows[ranks(rows)[dir] as int].1
        },
    decreases rows.len(),
{
    if rows.len() > 0 {
        lemma_ranks(rows.drop_last(), dir);
    }
}

/// `map` has just the given rows, in their order: the directory of row `i` has the rank `i`,
/// the entries of the row stand from `offsets[i]` to `offsets[i + 1]`, and nothing stands
/// before the first row, between two rows or behind the last.
pub open spec fn has_rows(map: DirMap, rows: Seq<DirRow>) -> bool {
    &&& rows.len() <= u32::MAX
    &&& map.ent_child@.len() == map.ent_fid@.len()
    &&& map.ent_ty@.len() == map.ent_fid@.len()
    &&& map.index@ == ranks(rows)
    &&& map.offsets@.len() == rows.len() + 1
    &&& map.offsets@[0] == 0
    &&& map.offsets@.last() == map.ent_fid@.len()
    &&& rows_entries(rows) == map.ent_fid@.len()
    &&& forall|i: int, j: int|
        0 <= i <= j < map.offsets@.len() ==> map.offsets@[i] <= map.offsets@[j]
    &&& forall|i: int|
        0 <= i < rows.len() ==> map.row(i) == (#[trigger] rows[i]).1 && names_ascend(rows[i].1)
}

proof fn lemma_has_rows(map: DirMap, rows: Seq<DirRow>)
    requires
        has_rows(map, rows),
    ensures
        map.wf(),
        map@ == rows_map(rows),
{
    assert forall|d: u64| #[trigger] map.index@.contains_key(d) implies {
        let r = map.index@[d] as int;
        &&& r + 1 < map.offsets@.len()
        &&& map.offsets@[r] <= map.offsets@[r + 1] <= map.ent_fid@.len()
        &&& names_ascend(map.row(r))
    } by {
        lemma_ranks(rows, d);
        let r = map.index@[d] as int;
        assert(map.row(r) == rows[r].1);
    }
    assert(map@ =~= rows_map(rows)) by {
        assert forall|d: u64| #[trigger] map@.contains_key(d) <==> rows_map(rows).contains_key(d) by {
            lemma_ranks(rows, d);
        }
        assert forall|d: u64| #[trigger] map@.contains_key(d) implies map@[d] == rows_map(
            rows,
        )[d] by {
            lemma_ranks(rows, d);
            assert(map.row(map.index@[d] as int) == rows[map.index@[d] as int].1);
        }
    }
}

/// Where the directories of the rows ascend and no row is empty, their ranks are dense and
/// ascend with them, and so do the offsets.
proof fn lemma_compact(map: DirMap, rows: Seq<DirRow>)
    requires
        has_rows(map, rows),
        dirs_ascend(rows),
        forall|i: int| 0 <= i < rows.len() ==> (#[trigger] rows[i]).1.len() > 0,
    ensures
        map.is_compact(),
{
    let dirs = Seq::new(rows.len(), |i: int| rows[i].0);
    assert forall|i: int| 0 <= i < rows.len() implies map.index@.contains_key(
        (#[trigger] rows[i]).0,
    ) && map.index@[rows[i].0] == i by {
        lemma_rows_map(rows, rows[i].0);
        lemma_ranks(rows, rows[i].0);
        let r = map.index@[rows[i].0] as int;
        assert(rows[r].0 == rows[i].0);
    }
    assert forall|d: u64| #[trigger] map.index@.contains_key(d) implies map.index@[d] < rows.len()
        && rows[map.index@[d] as int].0 == d by {
        lemma_ranks(rows, d);
    }
    assert(map.index@.dom().len() == rows.len()) by {
        assert(dirs.no_duplicates());
        dirs.unique_seq_to_set();
        assert(dirs.to_set() =~= map.index@.dom()) by {
            assert forall|d: u64| map.index@.contains_key(d) implies #[trigger] dirs.contains(d) by {
                assert(dirs[map.index@[d] as int] == d);
            }
            assert forall|d: u64| #[trigger] dirs.contains(d) implies map.index@.contains_key(
                d,
            ) by {
                let i = choose|i: int| 0 <= i < dirs.len() && dirs[i] == d;
                assert(rows[i].0 == d);
            }
        }
    }
    assert forall|i: int, j: int| 0 <= i < j < map.offsets@.len() implies map.offsets@[i]
        < map.offsets@[j] by {
        assert(map.row(i) == rows[i].1);
        assert(map.offsets@[i + 1] <= map.offsets@[j]);
    }
    assert forall|r: int| 0 <= r < map.offsets@.len() - 1 implies #[trigger] map.has_rank(r) by {
        assert(map.index@.contains_key(rows[r].0));
    }
}

/// Appends row `d` of `shard`.
fn append_row(map: &mut DirMap, shard: &WorkerShard, d: usize, Ghost(rows): Ghost<Seq<DirRow>>)
    requires
        has_rows(*old(map), rows),
        rows.len() < u32::MAX,
        shard.wf(),
        d < shard@.len(),
    ensures
        has_rows(*final(map), rows.push(shard@[d as int])),
{
    let ghost before = *map;
    let n_offsets: usize = shard.offsets.len();
    let n_entries: usize = shard.fid.len();
    assert(d + 1 < n_offsets && shard.offsets@[d + 1] <= shard.offsets@[n_offsets - 1]
        == n_entries);
    let s: usize = shard.offsets[d] as usize;
    let e: usize = shard.offsets[d + 1] as usize;
    let ghost base = map.ent_fid@.len() as int;
    let mut j: usize = s;
    while j < e
        invariant
            s <= j <= e <= shard.fid@.len(),
            shard.child@.len() == shard.fid@.len(),
            shard.ty@.len() == shard.fid@.len(),
            base == before.ent_fid@.len(),
            before.ent_child@.len() == base,
            before.ent_ty@.len() == base,
            map.index == before.index,
            map.offsets == before.offsets,
            map.ent_fid@.len() == base + j - s,
            map.ent_child@.len() == base + j - s,
            map.ent_ty@.len() == base + j - s,
            forall|i: int| 0 <= i < base ==> map.ent_fid@[i] == before.ent_fid@[i],
            forall|i: int| 0 <= i < base ==> map.ent_child@[i] == before.ent_child@[i],
            forall|i: int| 0 <= i < base ==> map.ent_ty@[i] == before.ent_ty@[i],
            forall|i: int|
                base <= i < base + j - s ==> (#[trigger] map.ent_fid@[i]) == shard.fid@[i - base + s]
                    && map.ent_child@[i] == shard.child@[i - base + s] && map.ent_ty@[i]
                    == shard.ty@[i - base + s],
        decreases e - j,
    {
        map.ent_fid.push(shard.fid[j]);
        map.ent_child.push(shard.child[j]);
        map.ent_ty.push(shard.ty[j]);
        j = j + 1;
    }
    let rank: u32 = (map.offsets.len() - 1) as u32;
    map.index.insert(shard.dirs[d], rank);
    let end: usize = map.ent_fid.len();
    map.offsets.push(end as u64);
    proof {
        let row = shard@[d as int];
        let after = rows.push(row);
        assert(after.drop_last() =~= rows);
        assert forall|i: int| 0 <= i < after.len() implies map.row(i) == (#[trigger] after[i]).1
            && names_ascend(after[i].1) by {
            if i < rows.len() {
                assert(before.offsets@[i + 1] <= before.offsets@[rows.len() as int]);
                assert(map.row(i) =~= before.row(i));
                assert(after[i] == rows[i]);
            } else {
                assert(map.row(i) =~= shard.row(d as int));
            }
        }
    }
}

/// Why no directory map can be made.
#[derive(Clone, Copy, PartialEq, Eq, Structural, Debug)]
pub enum HydrateError {
    /// There are more directories than ranks.
    TooManyDirs,
}

/// Puts the rows of all shards, in their order, into one directory map. Each shard is dropped
/// as soon as its rows are in the map.
pub fn merge_shards(shards: Vec<WorkerShard>) -> (r: Result<DirMap, HydrateError>)
    requires
        forall|w: int| 0 <= w < shards@.len() ==> (#[trigger] shards@[w]).wf(),
    ensures
        r is Err <==> all_rows(shards@).len() > u32::MAX,
        r is Err ==> r == Err::<DirMap, HydrateError>(HydrateError::TooManyDirs),
        r matches Ok(m) ==> {
            &&& m.wf()
            &&& has_rows(m, all_rows(shards@))
            &&& m@ == rows_map(all_rows(shards@))
        },
{
    let mut map = DirMap {
        index: NodeRanks::new(),
        offsets: vec![0u64],
        ent_fid: Vec::new(),
        ent_child: Vec::new(),
        ent_ty: Vec::new(),
    };
    let ghost all = shards@;
    let mut left = shards;
    let n_shards: usize = left.len();
    let mut w: usize = 0;
    assert(all_rows(all.take(0)) =~= Seq::<DirRow>::empty());
    while w < n_shards
        invariant
            w <= n_shards == all.len() == left@.len(),
            all == shards@,
            forall|w: int| 0 <= w < all.len() ==> (#[trigger] all[w]).wf(),
            forall|i: int| w <= i < all.len() ==> #[trigger] left@[i] == all[i],
            all_rows(all.take(w as int)).len() <= u32::MAX,
            has_rows(map, all_rows(all.take(w as int))),
        decreases n_shards - w,
    {
        let mut shard = WorkerShard::new();
        std::mem::swap(&mut left[w], &mut shard);
        let ghost rows = all_rows(all.take(w as int));
        proof {
            assert(all.take(w + 1).drop_last() =~= all.take(w as int));
            assert(all_rows(all.take(w + 1)) == rows + shard@);
            lemma_all_rows_grow(all, w + 1);
        }
        let n_dirs: usize = shard.num_dirs();
        let used: usize = map.offsets.len() - 1;
        if n_dirs > (u32::MAX as usize) - used {
            return Err(HydrateError::TooManyDirs);
        }
        let mut d: usize = 0;
        assert(rows + shard@.take(0) =~= rows);
        while d < n_dirs
            invariant
                d <= n_dirs,
                n_dirs == shard@.len(),
                shard.wf(),
                rows.len() + n_dirs <= u32::MAX,
                has_rows(map, rows + shard@.take(d as int)),
            decreases n_dirs - d,
        {
            append_row(&mut map, &shard, d, Ghost(rows + shard@.take(d as int)));
            assert((rows + shard@.take(d as int)).push(shard@[d as int]) =~= rows + shard@.take(
                d + 1,
            ));
            d = d + 1;
        }
        assert(shard@.take(d as int) =~= shard@);
        w = w + 1;
    }
    proof {
        assert(all.take(w as int) =~= all);
        lemma_has_rows(map, all_rows(all));
    }
    Ok(map)
}

/// The rows of the first shards are among the rows of all.
proof fn lemma_all_rows_grow(shards: Seq<WorkerShard>, n: int)
    requires
        0 <= n <= shards.len(),
    ensures
        all_rows(shards.take(n)).len() <= all_rows(shards).len(),
    decreases shards.len() - n,
{
    if n == shards.len() {
        assert(shards.take(n) =~= shards);
    } else {
        lemma_all_rows_grow(shards, n + 1);
        assert(shards.take(n + 1).drop_last() =~= shards.take(n));
    }
}

/// `m` is the directory map of the first `num_nodes` nodes: it has just the directories in
/// which the scan finds something, each with the index of its requested entries.
pub open spec fn hydrated(
    g: GraphModel,
    reached: Set<int>,
    want: Set<int>,
    sequential: bool,
    num_nodes: usize,
    m: Map<u64, Seq<Entry>>,
) -> bool {
    forall|d: u64|
        {
            &&& #[trigger] m.contains_key(d) <==> d < num_nodes && found(
                g,
                reached,
                want,
                sequential,
                d as usize,
            )
            &&& m.contains_key(d) ==> row_is(m[d], dir_entries(g, want, d as usize))
        }
}

proof fn lemma_rows_map(rows: Seq<DirRow>, dir: u64)
    requires
        dirs_ascend(rows),
    ensures
        rows_map(rows).contains_key(dir) <==> exists|i: int|
            0 <= i < rows.len() && (#[trigger] rows[i]).0 == dir,
        forall|i: int|
            0 <= i < rows.len() && (#[trigger] rows[i]).0 == dir ==> rows_map(rows)[dir]
                == rows[i].1,
    decreases rows.len(),
{
    if rows.len() > 0 {
        let before = rows.drop_last();
        lemma_rows_map(before, dir);
        assert forall|i: int| 0 <= i < rows.len() && (#[trigger] rows[i]).0 == dir implies rows_map(
            rows,
        )[dir] == rows[i].1 && rows_map(rows).contains_key(dir) by {
            if i < before.len() {
                assert(before[i] == rows[i]);
                assert(rows[i].0 < rows.last().0);
            }
        }
        if rows_map(rows).contains_key(dir) {
            if dir == rows.last().0 {
                assert(rows[rows.len() - 1].0 == dir);
            } else {
                let i = choose|i: int| 0 <= i < before.len() && (#[trigger] before[i]).0 == dir;
                assert(rows[i].0 == dir);
            }
        }
    }
}

/// The rows of a scan of all nodes, by directory, are the directory map.
pub proof fn lemma_scan_hydrated(
    g: GraphModel,
    reached: Set<int>,
    want: Set<int>,
    sequential: bool,
    num_nodes: usize,
    rows: Seq<DirRow>,
)
    requires
        scan_is(g, reached, want, sequential, 0, num_nodes, rows),
    ensures
        hydrated(g, reached, want, sequential, num_nodes, rows_map(rows)),
{
    let m = rows_map(rows);
    assert forall|d: u64|
        {
            &&& #[trigger] m.contains_key(d) <==> d < num_nodes && found(
                g,
                reached,
                want,
                sequential,
                d as usize,
            )
            &&& m.contains_key(d) ==> row_is(m[d], dir_entries(g, want, d as usize))
        } by {
        lemma_rows_map(rows, d);
        if m.contains_key(d) {
            let i = choose|i: int| 0 <= i < rows.len() && (#[trigger] rows[i]).0 == d;
            assert(m[d] == rows[i].1);
        }
    }
}

/// How a scan is carried out.
pub struct ScanPlan {
    /// Band `w` reaches from node `bounds[w]` to node `bounds[w + 1]`.
    pub bounds: Vec<usize>,
    /// Whether the labels of every directory are read.
    pub sequential: bool,
}

/// Splits the nodes into `k` bands (one, where `k` is 0), and chooses between seeking to the
/// reachable directories and reading front to back by how many there are.
pub fn plan_scan(offsets: &LabelOffsets, reached: &NodeBitset, k: usize) -> (r: ScanPlan)
    requires
        k < usize::MAX,
        reached.wf(),
        reached@.len() <= u64::MAX,
        offsets@.len() == reached.spec_len() + 1,
    ensures
        r.sequential == (reached@.len() > SEQ_THRESHOLD),
        r.bounds@.len() == (if k == 0 {
            1
        } else {
            k as int
        }) + 1,
        bounds_are(offsets@, reached.spec_len(), r.bounds@),
{
    let k: usize = if k == 0 {
        1
    } else {
        k
    };
    let num_nodes: usize = offsets.len() - 1;
    let bounds = band_bounds(offsets, num_nodes, k);
    let n_reachable: u64 = reached.count_set();
    ScanPlan { bounds, sequential: n_reachable > SEQ_THRESHOLD }
}

/// Scans all nodes, band by band, into the directory map.
pub fn hydrate<G: Graph>(
    graph: &G,
    offsets: &LabelOffsets,
    reached: &NodeBitset,
    requested: &RequestedFid,
    k: usize,
) -> (r: Result<DirMap, HydrateError>)
    requires
        k < usize::MAX,
        reached.wf(),
        reached@.len() <= u64::MAX,
        offsets@.len() == reached.spec_len() + 1,
        requested.wf(),
        names_within(graph),
    ensures
        forall|g: GraphModel| #[trigger]
            graph_is(graph, g) ==> {
                &&& r is Err <==> found_dirs(
                    g,
                    reached@,
                    requested@,
                    reached@.len() > SEQ_THRESHOLD,
                    reached.spec_len(),
                ).len() > u32::MAX
                &&& r matches Ok(m) ==> hydrated(
                    g,
                    reached@,
                    requested@,
                    reached@.len() > SEQ_THRESHOLD,
                    reached.spec_len(),
                    m@,
                )
            },
        r is Err ==> r == Err::<DirMap, HydrateError>(HydrateError::TooManyDirs),
        r matches Ok(m) ==> {
            &&& m.wf()
            &&& m.is_compact()
            &&& exists|rows: Seq<DirRow>| #[trigger]
                has_rows(m, rows) && forall|g: GraphModel| #[trigger]
                    graph_is(graph, g) ==> scan_is(
                        g,
                        reached@,
                        requested@,
                        reached@.len() > SEQ_THRESHOLD,
                        0,
                        reached.spec_len(),
                        rows,
                    )
        },
{
    let plan = plan_scan(offsets, reached, k);
    let sequential: bool = plan.sequential;
    let n_bands: usize = plan.bounds.len() - 1;
    let mut shards: Vec<WorkerShard> = Vec::new();
    let mut w: usize = 0;
    while w < n_bands
        invariant
            w <= n_bands,
            plan.bounds@.len() == n_bands + 1,
            bounds_are(offsets@, reached.spec_len(), plan.bounds@),
            reached.wf(),
            requested.wf(),
            names_within(graph),
            forall|i: int| 0 <= i < shards@.len() ==> (#[trigger] shards@[i]).wf(),
            rows_between(all_rows(shards@), 0, plan.bounds@[w as int]),
            forall|g: GraphModel| #[trigger]
                graph_is(graph, g) ==> scan_is(
                    g,
                    reached@,
                    requested@,
                    sequential,
                    0,
                    plan.bounds@[w as int],
                    all_rows(shards@),
                ),
        decreases n_bands - w,
    {
        let ghost before = shards@;
        let lo: usize = plan.bounds[w];
        let hi: usize = plan.bounds[w + 1];
        let shard = scan_band(graph, reached, requested, lo, hi, sequential);
        let ghost rows = shard@;
        shards.push(shard);
        assert(shards@.drop_last() =~= before);
        assert(rows_between(all_rows(before) + rows, 0, hi));
        assert forall|g: GraphModel| #[trigger] graph_is(graph, g) implies scan_is(
            g,
            reached@,
            requested@,
            sequential,
            0,
            hi,
            all_rows(shards@),
        ) by {
            lemma_scan_add(
                g,
                reached@,
                requested@,
                sequential,
                0,
                lo,
                hi,
                all_rows(before),
                rows,
            );
        }
        w = w + 1;
    }
    proof {
        assert forall|g: GraphModel| #[trigger] graph_is(graph, g) implies {
            &&& hydrated(
                g,
                reached@,
                requested@,
                sequential,
                reached.spec_len(),
                rows_map(all_rows(shards@)),
            )
            &&& found_dirs(g, reached@, requested@, sequential, reached.spec_len()).len()
                == all_rows(shards@).len()
        } by {
            lemma_scan_hydrated(
                g,
                reached@,
                requested@,
                sequential,
                reached.spec_len(),
                all_rows(shards@),
            );
            lemma_scan_dirs(
                g,
                reached@,
                requested@,
                sequential,
                reached.spec_len(),
                all_rows(shards@),
            );
        }
    }
    let ghost rows = all_rows(shards@);
    let r = merge_shards(shards);
    proof {
        if r is Ok {
            lemma_compact(r->Ok_0, rows);
        }
    }
    r
}

/// The directories in which the scan finds something.
pub open spec fn found_dirs(
    g: GraphModel,
    reached: Set<int>,
    want: Set<int>,
    sequential: bool,
    num_nodes: usize,
) -> Set<u64> {
    Set::new(|d: u64| d < num_nodes && found(g, reached, want, sequential, d as usize))
}

proof fn lemma_scan_dirs(
    g: GraphModel,
    reached: Set<int>,
    want: Set<int>,
    sequential: bool,
    num_nodes: usize,
    rows: Seq<DirRow>,
)
    requires
        scan_is(g, reached, want, sequential, 0, num_nodes, rows),
    ensures
        found_dirs(g, reached, want, sequential, num_nodes).len() == rows.len(),
{
    let dirs = Seq::new(rows.len(), |i: int| rows[i].0);
    assert(dirs.no_duplicates());
    dirs.unique_seq_to_set();
    assert(dirs.to_set() =~= found_dirs(g, reached, want, sequential, num_nodes)) by {
        assert forall|d: u64|
            found_dirs(g, reached, want, sequential, num_nodes).contains(d) implies #[trigger] dirs.to_set().contains(
            d,
        ) by {
            let i = choose|i: int| 0 <= i < rows.len() && (#[trigger] rows[i]).0 == d as usize;
            assert(dirs[i] == d);
        }
        assert forall|d: u64| #[trigger]
            dirs.to_set().contains(d) implies found_dirs(
            g,
            reached,
            want,
            sequential,
            num_nodes,
        ).contains(d) by {
            let i = choose|i: int| 0 <= i < dirs.len() && dirs[i] == d;
            assert(rows[i].0 == d);
        }
    }
}

/// The size of one read ahead of the scan, in bytes.
pub const PREFETCH_CHUNK: u64 = 16_777_216;

/// How far a read may be ahead of the scan, in bytes.
pub const PREFETCH_WINDOW: u64 = 268_435_456;

/// What the reader that warms the page cache ahead of a scan does next.
#[derive(Clone, Copy, PartialEq, Eq, Structural, Debug)]
pub enum PrefetchStep {
    /// The band is read, or its scan is done.
    Stop,
    /// The reader is too far ahead.
    Wait,
    /// Read this many bytes.
    Read { len: u64 },
}

/// The next step of a reader at byte `pos` of a band that ends at `byte_hi`, where the scan
/// has reached `decoder_pos`.
pub fn prefetch_step(pos: u64, byte_hi: u64, decoder_pos: u64, done: bool) -> (r: PrefetchStep)
    ensures
        r is Stop <==> pos >= byte_hi || done,
        r is Wait <==> pos < byte_hi && !done && pos > decoder_pos + PREFETCH_WINDOW,
        r matches PrefetchStep::Read { len } ==> 0 < len <= PREFETCH_CHUNK && pos + len <= byte_hi
            && (len < PREFETCH_CHUNK ==> pos + len == byte_hi),
{
    if pos >= byte_hi || done {
        return PrefetchStep::Stop;
    }
    if pos > decoder_pos.saturating_add(PREFETCH_WINDOW) {
        return PrefetchStep::Wait;
    }
    let left: u64 = byte_hi - pos;
    PrefetchStep::Read {
        len: if left < PREFETCH_CHUNK {
            left
        } else {
            PREFETCH_CHUNK
        },
    }
}

/// Where the reader stands after a read at `pos`; nowhere, where nothing was read.
pub fn after_prefetch(pos: u64, read: Option<u64>) -> (r: Option<u64>)
    requires
        read matches Some(n) ==> pos + n <= u64::MAX,
    ensures
        r == (match read {
            Some(n) if n > 0 => Some((pos + n) as u64),
            _ => None,
        }),
{
    match read {
        Some(n) => if n > 0 {
            Some(pos + n)
        } else {
            None
        },
        None => None,
    }
}

} // verus!
