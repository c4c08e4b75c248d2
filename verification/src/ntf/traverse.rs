//! The walk of each row from its root to its leaf, and what is written of it.

use vstd::prelude::*;

use crate::ntf::common::{
    lookup_in, status_code, DirMap, Seeds, Status, FID_MISSING, ROOT_MISSING, TY_CONTENT,
    TY_DIRECTORY, TY_REVISION,
};
use crate::ntf::entries::Entry;
use crate::ntf::graph::{graph_is, Graph, GraphModel};
use crate::ntf::seeds::{seed_rows, SeedRow};
use crate::ntf::text::{build_qualified, full_rev_id, normalize_rev_id, qualified};

verus! {

/// Where a walk ends that takes the last step to a node of the given type: at a content, it
/// succeeds.
pub open spec fn end_at(child: u64, ty: u8) -> (u64, Status) {
    if ty == TY_CONTENT {
        (child, Status::Resolved)
    } else if ty == TY_DIRECTORY {
        (0, Status::DirTarget)
    } else if ty == TY_REVISION {
        (0, Status::Submodule)
    } else {
        (0, Status::NotFound)
    }
}

/// The walk from directory `cur` along `path`: each step but the last leads to a directory.
pub open spec fn walk_from(m: Map<u64, Seq<Entry>>, cur: u64, path: Seq<u64>) -> (u64, Status)
    decreases path.len(),
{
    if path.len() == 0 || path[0] == FID_MISSING {
        (0, Status::NotFound)
    } else {
        match lookup_in(m, cur, path[0]) {
            None => (0, Status::NotFound),
            Some((child, ty)) => if path.len() == 1 {
                end_at(child, ty)
            } else if ty == TY_DIRECTORY {
                walk_from(m, child, path.drop_first())
            } else if ty == TY_REVISION {
                (0, Status::Submodule)
            } else {
                (0, Status::NotFound)
            },
        }
    }
}

/// The walk of a row: the leaf, which is 0 unless the walk succeeds, and how it ended.
pub open spec fn walk(m: Map<u64, Seq<Entry>>, row: SeedRow) -> (u64, Status) {
    if row.root == ROOT_MISSING {
        (0, Status::NoRoot)
    } else {
        walk_from(m, row.root, row.path)
    }
}

/// Walks one row.
pub fn walk_row(map: &DirMap, seeds: &Seeds, row: usize) -> (r: (u64, Status))
    requires
        map.wf(),
        seeds.wf(),
        row < seeds.n_rows,
    ensures
        r == walk(map@, seed_rows(*seeds)[row as int]),
{
    let root: u64 = seeds.root[row];
    if root == ROOT_MISSING {
        return (0, Status::NoRoot);
    }
    let n_off: usize = seeds.path_off.len();
    assert(seeds.path_off@[row as int] <= seeds.path_off@[row + 1]);
    assert(seeds.path_off@[row + 1] <= seeds.path_off@[n_off - 1]);
    let fids = seeds.path_of(row);
    let mut cur: u64 = root;
    let mut i: usize = 0;
    assert(fids@.skip(0) =~= fids@);
    while i < fids.len()
        invariant
            i <= fids@.len(),
            map.wf(),
            walk(map@, seed_rows(*seeds)[row as int]) == walk_from(map@, cur, fids@.skip(i as int)),
        decreases fids@.len() - i,
    {
        let fid: u64 = fids[i];
        if fid == FID_MISSING {
            return (0, Status::NotFound);
        }
        let (child, ty) = match map.lookup(cur, fid) {
            Some(c) => c,
            None => {
                return (0, Status::NotFound);
            },
        };
        if i + 1 == fids.len() {
            return if ty == TY_CONTENT {
                (child, Status::Resolved)
            } else if ty == TY_DIRECTORY {
                (0, Status::DirTarget)
            } else if ty == TY_REVISION {
                (0, Status::Submodule)
            } else {
                (0, Status::NotFound)
            };
        }
        assert(fids@.skip(i as int).drop_first() =~= fids@.skip(i + 1));
        if ty == TY_DIRECTORY {
            cur = child;
        } else if ty == TY_REVISION {
            return (0, Status::Submodule);
        } else {
            return (0, Status::NotFound);
        }
        i = i + 1;
    }
    (0, Status::NotFound)
}

/// Walks all rows: the leaf of each, and the number of its status.
pub fn traverse(map: &DirMap, seeds: &Seeds) -> (r: (Vec<u64>, Vec<u8>))
    requires
        map.wf(),
        seeds.wf(),
    ensures
        r.0@.len() == seeds.n_rows,
        r.1@.len() == seeds.n_rows,
        forall|i: int|
            #![trigger r.0@[i]]
            #![trigger r.1@[i]]
            0 <= i < seeds.n_rows ==> {
                let (leaf, status) = walk(map@, seed_rows(*seeds)[i]);
                r.0@[i] == leaf && r.1@[i] == status_code(status)
            },
{
    let mut leaf: Vec<u64> = Vec::new();
    let mut status: Vec<u8> = Vec::new();
    let mut row: usize = 0;
    while row < seeds.n_rows
        invariant
            row <= seeds.n_rows,
            map.wf(),
            seeds.wf(),
            leaf@.len() == row,
            status@.len() == row,
            forall|i: int|
                #![trigger leaf@[i]]
                #![trigger status@[i]]
                0 <= i < row ==> {
                    let (l, s) = walk(map@, seed_rows(*seeds)[i]);
                    leaf@[i] == l && status@[i] == status_code(s)
                },
        decreases seeds.n_rows - row,
    {
        let (l, s) = walk_row(map, seeds, row);
        leaf.push(l);
        status.push(s.as_u8());
        row = row + 1;
    }
    (leaf, status)
}

/// One row of the output.
pub struct OutputRow {
    pub repo: String,
    pub commit_id: String,
    pub rel_path: String,
    pub id: String,
    pub origin_url: String,
    pub snapshot_swhid: String,
    pub rev_swhid: String,
    pub cnt_swhid: String,
    pub qualified: String,
    pub status: String,
}

/// One row of the output as mathematics sees it.
pub struct OutputText {
    pub repo: Seq<char>,
    pub commit_id: Seq<char>,
    pub rel_path: Seq<char>,
    pub id: Seq<char>,
    pub origin_url: Seq<char>,
    pub snapshot_swhid: Seq<char>,
    pub rev_swhid: Seq<char>,
    pub cnt_swhid: Seq<char>,
    pub qualified: Seq<char>,
    pub status: Seq<char>,
}

impl View for OutputRow {
    type V = OutputText;

    open spec fn view(&self) -> OutputText {
        OutputText {
            repo: self.repo@,
            commit_id: self.commit_id@,
            rel_path: self.rel_path@,
            id: self.id@,
            origin_url: self.origin_url@,
            snapshot_swhid: self.snapshot_swhid@,
            rev_swhid: self.rev_swhid@,
            cnt_swhid: self.cnt_swhid@,
            qualified: self.qualified@,
            status: self.status@,
        }
    }
}

/// The names of the columns of the output, in their order.
pub fn output_fields() -> (r: [&'static str; 10])
    ensures
        r@[0]@ == "repo"@,
        r@[1]@ == "commit_id"@,
        r@[2]@ == "rel_path"@,
        r@[3]@ == "id"@,
        r@[4]@ == "origin_url"@,
        r@[5]@ == "snapshot_swhid"@,
        r@[6]@ == "rev_swhid"@,
        r@[7]@ == "cnt_swhid"@,
        r@[8]@ == "qualified"@,
        r@[9]@ == "status"@,
{
    [
        "repo",
        "commit_id",
        "rel_path",
        "id",
        "origin_url",
        "snapshot_swhid",
        "rev_swhid",
        "cnt_swhid",
        "qualified",
        "status",
    ]
}

impl OutputRow {
    /// The cells of the row, in the order of the columns.
    pub fn into_cells(self) -> (r: [String; 10])
        ensures
            r@ == seq![
                self.repo,
                self.commit_id,
                self.rel_path,
                self.id,
                self.origin_url,
                self.snapshot_swhid,
                self.rev_swhid,
                self.cnt_swhid,
                self.qualified,
                self.status,
            ],
    {
        let r = [
            self.repo,
            self.commit_id,
            self.rel_path,
            self.id,
            self.origin_url,
            self.snapshot_swhid,
            self.rev_swhid,
            self.cnt_swhid,
            self.qualified,
            self.status,
        ];
        assert(r@ =~= seq![
            self.repo,
            self.commit_id,
            self.rel_path,
            self.id,
            self.origin_url,
            self.snapshot_swhid,
            self.rev_swhid,
            self.cnt_swhid,
            self.qualified,
            self.status,
        ]);
        r
    }
}

/// One batch of the candidates: the columns that pass through to the output.
pub struct PassThrough {
    pub repo: Vec<String>,
    pub commit_id: Vec<String>,
    pub rel_path: Vec<String>,
    pub id: Vec<String>,
    pub origin_url: Vec<String>,
    pub rev_swhid: Vec<String>,
}

impl PassThrough {
    /// The columns are equally long.
    pub open spec fn wf(&self) -> bool {
        &&& self.commit_id@.len() == self.repo@.len()
        &&& self.rel_path@.len() == self.repo@.len()
        &&& self.id@.len() == self.repo@.len()
        &&& self.origin_url@.len() == self.repo@.len()
        &&& self.rev_swhid@.len() == self.repo@.len()
    }

    /// Row `i` of the output, where the walk came to `leaf` and ended with the status of the
    /// given number.
    ///
    /// The content has a SWHID, plain and qualified, only where the walk succeeded. No
    /// snapshot is known.
    pub open spec fn output(&self, g: GraphModel, i: int, leaf: u64, status: u8) -> OutputText {
        let found = status == 0;
        let cnt = if found {
            (g.swhid)(leaf as usize)
        } else {
            Seq::empty()
        };
        OutputText {
            repo: self.repo@[i]@,
            commit_id: self.commit_id@[i]@,
            rel_path: self.rel_path@[i]@,
            id: full_rev_id(self.id@[i]@),
            origin_url: self.origin_url@[i]@,
            snapshot_swhid: Seq::empty(),
            rev_swhid: self.rev_swhid@[i]@,
            cnt_swhid: cnt,
            qualified: if found {
                qualified(
                    cnt,
                    self.origin_url@[i]@,
                    Seq::empty(),
                    self.rev_swhid@[i]@,
                    self.rel_path@[i]@,
                )
            } else {
                Seq::empty()
            },
            status: if found {
                "ok"@
            } else {
                "path_not_found"@
            },
        }
    }
}

/// Makes row `i` of the output.
fn output_row<G: Graph>(graph: &G, batch: &PassThrough, i: usize, leaf: u64, status: u8) -> (r:
    OutputRow)
    requires
        batch.wf(),
        i < batch.repo@.len(),
    ensures
        forall|g: GraphModel| #[trigger]
            graph_is(graph, g) ==> r@ == batch.output(g, i as int, leaf, status),
{
    let st = Status::from_u8(status);
    let (cnt_swhid, qualified) = if st == Status::Resolved {
        let cnt = graph.swhid(leaf as usize);
        let q = build_qualified(
            cnt.as_str(),
            batch.origin_url[i].as_str(),
            "",
            batch.rev_swhid[i].as_str(),
            batch.rel_path[i].as_str(),
        );
        (cnt, q)
    } else {
        (String::new(), String::new())
    };
    proof {
        reveal_strlit("");
        assert(""@ =~= Seq::<char>::empty());
    }
    let id: String = match normalize_rev_id(batch.id[i].as_str()) {
        std::borrow::Cow::Borrowed(s) => s.to_owned(),
        std::borrow::Cow::Owned(s) => s,
    };
    OutputRow {
        repo: batch.repo[i].clone(),
        commit_id: batch.commit_id[i].clone(),
        rel_path: batch.rel_path[i].clone(),
        id,
        origin_url: batch.origin_url[i].clone(),
        snapshot_swhid: String::new(),
        rev_swhid: batch.rev_swhid[i].clone(),
        cnt_swhid,
        qualified,
        status: st.output_str().to_owned(),
    }
}

/// The candidates and the seeds do not have the same rows.
#[derive(Clone, Copy, PartialEq, Eq, Structural, Debug)]
pub enum Misaligned {
    /// There are more candidates than seeds.
    TooManyRows,
    /// There are fewer candidates than seeds.
    TooFewRows,
}

/// One row of the output with its bin.
pub struct BinnedRow {
    pub bin: u16,
    pub row: OutputRow,
}

/// Makes the output of one batch of candidates, whose first row is row `row_global` of all.
pub fn emit_batch<G: Graph>(
    graph: &G,
    batch: &PassThrough,
    seeds: &Seeds,
    leaf: &Vec<u64>,
    status: &Vec<u8>,
    row_global: usize,
) -> (r: Result<Vec<BinnedRow>, Misaligned>)
    requires
        batch.wf(),
        seeds.wf(),
        leaf@.len() == seeds.n_rows,
        status@.len() == seeds.n_rows,
    ensures
        r is Err <==> row_global + batch.repo@.len() > seeds.n_rows,
        r is Err ==> r == Err::<Vec<BinnedRow>, Misaligned>(Misaligned::TooManyRows),
        r matches Ok(rows) ==> {
            &&& rows@.len() == batch.repo@.len()
            &&& forall|i: int|
                0 <= i < rows@.len() ==> (#[trigger] rows@[i]).bin == seeds.bin@[row_global + i]
            &&& forall|g: GraphModel, i: int|
                #![trigger graph_is(graph, g), rows@[i]]
                graph_is(graph, g) && 0 <= i < rows@.len() ==> rows@[i].row@ == batch.output(
                    g,
                    i,
                    leaf@[row_global + i],
                    status@[row_global + i],
                )
        },
{
    let n: usize = batch.repo.len();
    if n > seeds.n_rows || row_global > seeds.n_rows - n {
        return Err(Misaligned::TooManyRows);
    }
    let mut out: Vec<BinnedRow> = Vec::new();
    let mut i: usize = 0;
    while i < n
        invariant
            i <= n == batch.repo@.len(),
            batch.wf(),
            seeds.wf(),
            leaf@.len() == seeds.n_rows,
            status@.len() == seeds.n_rows,
            row_global + n <= seeds.n_rows,
            out@.len() == i,
            forall|k: int|
                0 <= k < i ==> (#[trigger] out@[k]).bin == seeds.bin@[row_global + k],
            forall|g: GraphModel, k: int|
                #![trigger graph_is(graph, g), out@[k]]
                graph_is(graph, g) && 0 <= k < i ==> out@[k].row@ == batch.output(
                    g,
                    k,
                    leaf@[row_global + k],
                    status@[row_global + k],
                ),
        decreases n - i,
    {
        let r: usize = row_global + i;
        let row = output_row(graph, batch, i, leaf[r], status[r]);
        out.push(BinnedRow { bin: seeds.bin[r], row });
        i = i + 1;
    }
    Ok(out)
}

/// Whether all rows were written, where `rows` were.
pub fn emit_done(rows: usize, seeds: &Seeds) -> (r: Result<(), Misaligned>)
    ensures
        r is Ok <==> rows == seeds.n_rows,
        r == Err::<(), Misaligned>(Misaligned::TooManyRows) <==> rows > seeds.n_rows,
        r == Err::<(), Misaligned>(Misaligned::TooFewRows) <==> rows < seeds.n_rows,
{
    if rows > seeds.n_rows {
        Err(Misaligned::TooManyRows)
    } else if rows < seeds.n_rows {
        Err(Misaligned::TooFewRows)
    } else {
        Ok(())
    }
}

/// The number of rows in the batches.
pub open spec fn total_rows(batches: Seq<PassThrough>) -> nat
    decreases batches.len(),
{
    if batches.len() == 0 {
        0
    } else {
        total_rows(batches.drop_last()) + batches.last().repo@.len()
    }
}

/// The output of the rows of all batches, in their order.
pub open spec fn outputs(
    g: GraphModel,
    batches: Seq<PassThrough>,
    leaf: Seq<u64>,
    status: Seq<u8>,
) -> Seq<OutputText>
    decreases batches.len(),
{
    if batches.len() == 0 {
        Seq::empty()
    } else {
        let start = total_rows(batches.drop_last()) as int;
        outputs(g, batches.drop_last(), leaf, status) + Seq::new(
            batches.last().repo@.len(),
            |i: int| batches.last().output(g, i, leaf[start + i], status[start + i]),
        )
    }
}

/// The first batches have no more rows than all.
proof fn lemma_total_rows(batches: Seq<PassThrough>, n: int)
    requires
        0 <= n <= batches.len(),
    ensures
        total_rows(batches.take(n)) <= total_rows(batches),
    decreases batches.len() - n,
{
    if n == batches.len() {
        assert(batches.take(n) =~= batches);
    } else {
        lemma_total_rows(batches, n + 1);
        assert(batches.take(n + 1).drop_last() =~= batches.take(n));
    }
}

/// Binned rows as mathematics sees them, without their bins.
pub open spec fn binned_view(rows: Seq<BinnedRow>) -> Seq<OutputText> {
    rows.map_values(|b: BinnedRow| b.row@)
}

/// Makes the output of all batches of candidates, row by row, each with its bin.
pub fn emit<G: Graph>(
    graph: &G,
    batches: &Vec<PassThrough>,
    seeds: &Seeds,
    leaf: &Vec<u64>,
    status: &Vec<u8>,
) -> (r: Result<Vec<BinnedRow>, Misaligned>)
    requires
        forall|k: int| 0 <= k < batches@.len() ==> (#[trigger] batches@[k]).wf(),
        seeds.wf(),
        leaf@.len() == seeds.n_rows,
        status@.len() == seeds.n_rows,
    ensures
        r is Ok <==> total_rows(batches@) == seeds.n_rows,
        r matches Err(e) ==> e == (if total_rows(batches@) > seeds.n_rows {
            Misaligned::TooManyRows
        } else {
            Misaligned::TooFewRows
        }),
        r matches Ok(rows) ==> {
            &&& rows@.len() == seeds.n_rows
            &&& forall|i: int|
                0 <= i < rows@.len() ==> (#[trigger] rows@[i]).bin == seeds.bin@[i]
            &&& forall|g: GraphModel| #[trigger]
                graph_is(graph, g) ==> binned_view(rows@) == outputs(g, batches@, leaf@, status@)
        },
{
    let mut out: Vec<BinnedRow> = Vec::new();
    let mut k: usize = 0;
    assert(batches@.take(0) =~= Seq::empty());
    assert(binned_view(out@) =~= Seq::empty());
    while k < batches.len()
        invariant
            k <= batches@.len(),
            forall|k: int| 0 <= k < batches@.len() ==> (#[trigger] batches@[k]).wf(),
            seeds.wf(),
            leaf@.len() == seeds.n_rows,
            status@.len() == seeds.n_rows,
            out@.len() == total_rows(batches@.take(k as int)) <= seeds.n_rows,
            forall|i: int|
                0 <= i < out@.len() ==> (#[trigger] out@[i]).bin == seeds.bin@[i],
            forall|g: GraphModel| #[trigger]
                graph_is(graph, g) ==> binned_view(out@) == outputs(
                    g,
                    batches@.take(k as int),
                    leaf@,
                    status@,
                ),
        decreases batches@.len() - k,
    {
        let ghost before = out@;
        proof {
            assert(batches@.take(k + 1).drop_last() =~= batches@.take(k as int));
            lemma_total_rows(batches@, k + 1);
        }
        let mut rows = match emit_batch(graph, &batches[k], seeds, leaf, status, out.len()) {
            Ok(rows) => rows,
            Err(e) => {
                return Err(e);
            },
        };
        let ghost added = rows@;
        out.append(&mut rows);
        assert(out@ =~= before + added);
        assert forall|g: GraphModel| #[trigger] graph_is(graph, g) implies binned_view(out@)
            == outputs(g, batches@.take(k + 1), leaf@, status@) by {
            assert(binned_view(before) == outputs(g, batches@.take(k as int), leaf@, status@));
            assert forall|i: int| 0 <= i < added.len() implies (#[trigger] added[i]).row@
                == batches@[k as int].output(
                g,
                i,
                leaf@[before.len() + i],
                status@[before.len() + i],
            ) by {}
            assert(binned_view(out@) =~= outputs(g, batches@.take(k + 1), leaf@, status@));
        }
        k = k + 1;
    }
    assert(batches@.take(k as int) =~= batches@);
    match emit_done(out.len(), seeds) {
        Ok(()) => Ok(out),
        Err(e) => Err(e),
    }
}

} // verus!
