//! The table of candidates that resolved rows are written to.

use vstd::prelude::*;

use crate::ntf::scratch::{rows_view, OutRow, RowText};

verus! {

/// The rows of all groups, one group behind the other.
pub open spec fn flat_rows(groups: Seq<Vec<OutRow>>) -> Seq<RowText>
    decreases groups.len(),
{
    if groups.len() == 0 {
        Seq::empty()
    } else {
        flat_rows(groups.drop_last()) + rows_view(groups.last()@)
    }
}

/// The table of candidates, column by column.
pub struct CandsColumns {
    pub repo: Vec<String>,
    pub commit_id: Vec<String>,
    pub rel_path: Vec<String>,
    pub id: Vec<String>,
    pub origin_url: Vec<String>,
    pub rev_swhid: Vec<String>,
    pub file_path: Vec<String>,
    pub bin: Vec<String>,
}

impl CandsColumns {
    /// The columns hold the given rows: the id is the SWHID of the revision once more, and
    /// the file path the relative path.
    pub open spec fn hold(&self, rows: Seq<RowText>) -> bool {
        &&& self.repo@.len() == rows.len()
        &&& self.commit_id@.len() == rows.len()
        &&& self.rel_path@.len() == rows.len()
        &&& self.id@.len() == rows.len()
        &&& self.origin_url@.len() == rows.len()
        &&& self.rev_swhid@.len() == rows.len()
        &&& self.file_path@.len() == rows.len()
        &&& self.bin@.len() == rows.len()
        &&& forall|i: int|
            0 <= i < rows.len() ==> {
                let row = #[trigger] rows[i];
                &&& self.repo@[i]@ == row.repo
                &&& self.commit_id@[i]@ == row.commit_id
                &&& self.rel_path@[i]@ == row.rel_path
                &&& self.id@[i]@ == row.rev_swhid
                &&& self.origin_url@[i]@ == row.origin_url
                &&& self.rev_swhid@[i]@ == row.rev_swhid
                &&& self.file_path@[i]@ == row.rel_path
                &&& self.bin@[i]@ == row.bin
            }
    }

    /// Appends a row.
    fn push(&mut self, row: &OutRow, Ghost(rows): Ghost<Seq<RowText>>)
        requires
            old(self).hold(rows),
        ensures
            final(self).hold(rows.push(row@)),
    {
        self.repo.push(row.repo.clone());
        self.commit_id.push(row.commit_id.clone());
        self.rel_path.push(row.rel_path.clone());
        self.id.push(row.rev_swhid.clone());
        self.origin_url.push(row.origin_url.clone());
        self.rev_swhid.push(row.rev_swhid.clone());
        self.file_path.push(row.rel_path.clone());
        self.bin.push(row.bin.clone());
    }
}

/// The names of the columns, in their order.
pub fn cands_fields() -> (r: [&'static str; 8])
    ensures
        r@[0]@ == "repo"@,
        r@[1]@ == "commit_id"@,
        r@[2]@ == "rel_path"@,
        r@[3]@ == "id"@,
        r@[4]@ == "origin_url"@,
        r@[5]@ == "rev_swhid"@,
        r@[6]@ == "file_path"@,
        r@[7]@ == "bin"@,
{
    ["repo", "commit_id", "rel_path", "id", "origin_url", "rev_swhid", "file_path", "bin"]
}

/// Puts the rows of all groups into columns.
pub fn cands_columns(groups: &Vec<Vec<OutRow>>) -> (r: CandsColumns)
    ensures
        r.hold(flat_rows(groups@)),
{
    let mut cols = CandsColumns {
        repo: Vec::new(),
        commit_id: Vec::new(),
        rel_path: Vec::new(),
        id: Vec::new(),
        origin_url: Vec::new(),
        rev_swhid: Vec::new(),
        file_path: Vec::new(),
        bin: Vec::new(),
    };
    let mut i: usize = 0;
    while i < groups.len()
        invariant
            i <= groups@.len(),
            cols.hold(flat_rows(groups@.take(i as int))),
        decreases groups@.len() - i,
    {
        let group = &groups[i];
        let ghost before = flat_rows(groups@.take(i as int));
        let mut k: usize = 0;
        assert(before + rows_view(group@).take(0) =~= before);
        while k < group.len()
            invariant
                k <= group@.len(),
                cols.hold(before + rows_view(group@).take(k as int)),
            decreases group@.len() - k,
        {
            cols.push(&group[k], Ghost(before + rows_view(group@).take(k as int)));
            assert((before + rows_view(group@).take(k as int)).push(group@[k as int]@) =~= before
                + rows_view(group@).take(k + 1));
            k = k + 1;
        }
        proof {
            assert(rows_view(group@).take(k as int) =~= rows_view(group@));
            assert(groups@.take(i + 1).drop_last() =~= groups@.take(i as int));
        }
        i = i + 1;
    }
    assert(groups@.take(i as int) =~= groups@);
    cols
}

/// The number of rows of one chunk of the table.
pub const CANDS_CHUNK: usize = 1_000_000;

/// The chunks in which `total` rows are written: from row `start` up to row `end` each. A
/// table without rows has one empty chunk.
pub struct Chunk {
    pub start: usize,
    pub end: usize,
}

/// `chunks` cover the rows below `n`, one behind the other, and all of them are full.
pub open spec fn full_chunks(chunks: Seq<Chunk>, n: int) -> bool {
    &&& n == chunks.len() * CANDS_CHUNK
    &&& forall|i: int|
        0 <= i < chunks.len() ==> (#[trigger] chunks[i]).start == i * CANDS_CHUNK && chunks[i].end
            == (i + 1) * CANDS_CHUNK
}

/// Splits `total` rows into chunks.
pub fn cands_chunks(total: usize) -> (r: Vec<Chunk>)
    ensures
        r@.len() > 0,
        full_chunks(r@.drop_last(), r@.last().start as int),
        r@.last().end == total,
        r@.last().start <= total <= r@.last().start + CANDS_CHUNK,
        r@.last().start == total ==> total == 0,
{
    let mut chunks: Vec<Chunk> = Vec::new();
    let mut start: usize = 0;
    while total - start > CANDS_CHUNK
        invariant
            start <= total,
            total > 0 ==> start < total,
            full_chunks(chunks@, start as int),
        decreases total - start,
    {
        let end: usize = start + CANDS_CHUNK;
        let ghost before = chunks@;
        chunks.push(Chunk { start, end });
        assert(full_chunks(chunks@, end as int)) by {
            assert forall|i: int| 0 <= i < chunks@.len() implies (#[trigger] chunks@[i]).start
                == i * CANDS_CHUNK && chunks@[i].end == (i + 1) * CANDS_CHUNK by {
                if i < before.len() {
                    assert(chunks@[i] == before[i]);
                }
            }
        }
        start = end;
    }
    let ghost before = chunks@;
    chunks.push(Chunk { start, end: total });
    assert(chunks@.drop_last() =~= before);
    chunks
}

} // verus!
