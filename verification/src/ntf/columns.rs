//! The columns of the tables: which ones a stage reads, and where they stand once only these
//! are read.
//!
//! A reader that is told to read some of the columns hands them out in the order in which
//! they stand in the file. So the position of a column is its rank among those that are read.

use vstd::prelude::*;

use crate::ntf::order::is_same_text;

verus! {

/// A column that a stage needs and does not find.
#[derive(Clone, Copy, PartialEq, Eq, Structural, Debug)]
pub enum MissingColumn {
    Repo,
    CommitId,
    RelPath,
    Bin,
    Id,
    OriginUrl,
    RevSwhid,
    /// Neither the SWHID of the revision nor its id.
    RevSwhidAndId,
}

/// The last column with the given name among the first `n`.
pub open spec fn last_below(names: Seq<String>, name: Seq<char>, n: int) -> Option<usize>
    decreases n,
{
    if n <= 0 {
        None
    } else if names[n - 1]@ == name {
        Some((n - 1) as usize)
    } else {
        last_below(names, name, n - 1)
    }
}

/// The last column with the given name.
pub open spec fn last_named(names: Seq<String>, name: Seq<char>) -> Option<usize> {
    last_below(names, name, names.len() as int)
}

/// The last column with the given name.
pub fn last_column(names: &Vec<String>, name: &str) -> (r: Option<usize>)
    ensures
        r == last_named(names@, name@),
        r matches Some(i) ==> i < names@.len(),
{
    let mut i: usize = names.len();
    while i > 0
        invariant
            i <= names@.len(),
            last_named(names@, name@) == last_below(names@, name@, i as int),
        decreases i,
    {
        if is_same_text(names[i - 1].as_str(), name) {
            return Some(i - 1);
        }
        i = i - 1;
    }
    None
}

/// The first column with the given name: no column before has it.
pub fn first_column(names: &Vec<String>, name: &str) -> (r: Option<usize>)
    ensures
        match r {
            Some(i) => i < names@.len() && names@[i as int]@ == name@ && forall|j: int|
                0 <= j < i ==> (#[trigger] names@[j])@ != name@,
            None => forall|j: int| 0 <= j < names@.len() ==> (#[trigger] names@[j])@ != name@,
        },
{
    let mut i: usize = 0;
    while i < names.len()
        invariant
            i <= names@.len(),
            forall|j: int| 0 <= j < i ==> (#[trigger] names@[j])@ != name@,
        decreases names@.len() - i,
    {
        if is_same_text(names[i].as_str(), name) {
            return Some(i);
        }
        i = i + 1;
    }
    None
}

/// The number of columns of `leaves` that stand before column `i`.
pub open spec fn rank(leaves: Seq<usize>, i: usize) -> nat
    decreases leaves.len(),
{
    if leaves.len() == 0 {
        0
    } else {
        rank(leaves.drop_last(), i) + if leaves.last() < i {
            1nat
        } else {
            0nat
        }
    }
}

/// The position of column `i` where just the columns of `leaves` are read.
fn rank_among(leaves: &Vec<usize>, i: usize) -> (r: usize)
    ensures
        r == rank(leaves@, i),
{
    let mut count: usize = 0;
    let mut k: usize = 0;
    while k < leaves.len()
        invariant
            k <= leaves@.len(),
            count == rank(leaves@.take(k as int), i),
            count <= k,
        decreases leaves@.len() - k,
    {
        assert(leaves@.take(k + 1).drop_last() =~= leaves@.take(k as int));
        if leaves[k] < i {
            count = count + 1;
        }
        k = k + 1;
    }
    assert(leaves@.take(k as int) =~= leaves@);
    count
}

/// The columns of the input that are read, and their positions.
pub struct InputColumns {
    pub leaves: Vec<usize>,
    pub repo: usize,
    pub commit_id: usize,
    pub rel_path: usize,
    pub bin: Option<usize>,
}

/// Whether a column of the input is read.
pub open spec fn is_input_name(name: Seq<char>) -> bool {
    name == "repo"@ || name == "commit_id"@ || name == "rel_path"@ || name == "bin"@
}

/// The columns among the first `n` that are read.
pub open spec fn input_leaves(names: Seq<String>, n: int) -> Seq<usize>
    decreases n,
{
    if n <= 0 {
        Seq::empty()
    } else if is_input_name(names[n - 1]@) {
        input_leaves(names, n - 1).push((n - 1) as usize)
    } else {
        input_leaves(names, n - 1)
    }
}

/// Of each column of the input the last with its name; the column of the bins may be
/// missing.
pub open spec fn input_chosen(names: Seq<String>) -> Seq<usize> {
    let three = seq![
        last_named(names, "repo"@)->0,
        last_named(names, "commit_id"@)->0,
        last_named(names, "rel_path"@)->0,
    ];
    match last_named(names, "bin"@) {
        Some(b) => three.push(b),
        None => three,
    }
}

/// The column that is missing from the input, if any.
pub open spec fn input_missing(names: Seq<String>) -> Option<MissingColumn> {
    if last_named(names, "repo"@) is None {
        Some(MissingColumn::Repo)
    } else if last_named(names, "commit_id"@) is None {
        Some(MissingColumn::CommitId)
    } else if last_named(names, "rel_path"@) is None {
        Some(MissingColumn::RelPath)
    } else {
        None
    }
}

/// Finds the columns of the input by their names.
pub fn input_columns(names: &Vec<String>) -> (r: Result<InputColumns, MissingColumn>)
    ensures
        match input_missing(names@) {
            Some(e) => r == Err::<InputColumns, MissingColumn>(e),
            None => {
                let chosen = input_chosen(names@);
                &&& r matches Ok(c)
                &&& c.leaves@ == input_leaves(names@, names@.len() as int)
                &&& c.repo == rank(chosen, chosen[0])
                &&& c.commit_id == rank(chosen, chosen[1])
                &&& c.rel_path == rank(chosen, chosen[2])
                &&& c.bin is Some <==> last_named(names@, "bin"@) is Some
                &&& c.bin matches Some(p) ==> p == rank(chosen, chosen[3])
            },
        },
{
    let mut leaves: Vec<usize> = Vec::new();
    let mut i: usize = 0;
    while i < names.len()
        invariant
            i <= names@.len(),
            leaves@ == input_leaves(names@, i as int),
        decreases names@.len() - i,
    {
        let name = names[i].as_str();
        if is_same_text(name, "repo") || is_same_text(name, "commit_id") || is_same_text(
            name,
            "rel_path",
        ) || is_same_text(name, "bin") {
            leaves.push(i);
        }
        i = i + 1;
    }
    let repo: usize = match last_column(names, "repo") {
        Some(c) => c,
        None => {
            return Err(MissingColumn::Repo);
        },
    };
    let commit_id: usize = match last_column(names, "commit_id") {
        Some(c) => c,
        None => {
            return Err(MissingColumn::CommitId);
        },
    };
    let rel_path: usize = match last_column(names, "rel_path") {
        Some(c) => c,
        None => {
            return Err(MissingColumn::RelPath);
        },
    };
    let bin: Option<usize> = last_column(names, "bin");
    let mut chosen: Vec<usize> = Vec::new();
    chosen.push(repo);
    chosen.push(commit_id);
    chosen.push(rel_path);
    if let Some(b) = bin {
        chosen.push(b);
    }
    assert(chosen@ =~= input_chosen(names@));
    Ok(
        InputColumns {
            leaves,
            repo: rank_among(&chosen, repo),
            commit_id: rank_among(&chosen, commit_id),
            rel_path: rank_among(&chosen, rel_path),
            bin: match bin {
                Some(b) => Some(rank_among(&chosen, b)),
                None => None,
            },
        },
    )
}

/// The columns of the candidates that the seeds are made of.
pub struct SeedColumns {
    pub leaves: Vec<usize>,
    /// Whether the revision is taken from the column of its SWHID, not from that of its id.
    pub from_rev_swhid: bool,
}

/// The column that is missing for the seeds, if any.
pub open spec fn seed_missing(names: Seq<String>) -> Option<MissingColumn> {
    if last_named(names, "repo"@) is None {
        Some(MissingColumn::Repo)
    } else if last_named(names, "commit_id"@) is None {
        Some(MissingColumn::CommitId)
    } else if last_named(names, "rel_path"@) is None {
        Some(MissingColumn::RelPath)
    } else if last_named(names, "bin"@) is None {
        Some(MissingColumn::Bin)
    } else if last_named(names, "rev_swhid"@) is None && last_named(names, "id"@) is None {
        Some(MissingColumn::RevSwhidAndId)
    } else {
        None
    }
}

/// The columns that are read for the seeds.
pub open spec fn seed_leaves(names: Seq<String>) -> Seq<usize> {
    let four = seq![
        last_named(names, "repo"@)->0,
        last_named(names, "commit_id"@)->0,
        last_named(names, "rel_path"@)->0,
        last_named(names, "bin"@)->0,
    ];
    let five = match last_named(names, "rev_swhid"@) {
        Some(r) => four.push(r),
        None => four,
    };
    match last_named(names, "id"@) {
        Some(d) => five.push(d),
        None => five,
    }
}

/// Finds the columns that the seeds are made of by their names.
pub fn seed_columns(names: &Vec<String>) -> (r: Result<SeedColumns, MissingColumn>)
    ensures
        match seed_missing(names@) {
            Some(e) => r == Err::<SeedColumns, MissingColumn>(e),
            None => r matches Ok(c) && c.leaves@ == seed_leaves(names@) && c.from_rev_swhid
                == last_named(names@, "rev_swhid"@) is Some,
        },
{
    let mut leaves: Vec<usize> = Vec::new();
    match last_column(names, "repo") {
        Some(c) => leaves.push(c),
        None => {
            return Err(MissingColumn::Repo);
        },
    }
    match last_column(names, "commit_id") {
        Some(c) => leaves.push(c),
        None => {
            return Err(MissingColumn::CommitId);
        },
    }
    match last_column(names, "rel_path") {
        Some(c) => leaves.push(c),
        None => {
            return Err(MissingColumn::RelPath);
        },
    }
    match last_column(names, "bin") {
        Some(c) => leaves.push(c),
        None => {
            return Err(MissingColumn::Bin);
        },
    }
    let rev: Option<usize> = last_column(names, "rev_swhid");
    let id: Option<usize> = last_column(names, "id");
    if rev.is_none() && id.is_none() {
        return Err(MissingColumn::RevSwhidAndId);
    }
    if let Some(c) = rev {
        leaves.push(c);
    }
    if let Some(c) = id {
        leaves.push(c);
    }
    assert(leaves@ =~= seed_leaves(names@));
    Ok(SeedColumns { leaves, from_rev_swhid: rev.is_some() })
}

/// The columns of the candidates that pass through to the output, and their positions.
pub struct OutputColumns {
    pub leaves: Vec<usize>,
    pub repo: usize,
    pub commit_id: usize,
    pub rel_path: usize,
    pub id: usize,
    pub origin_url: usize,
    pub rev_swhid: usize,
}

/// The column that is missing for the output, if any.
pub open spec fn output_missing(names: Seq<String>) -> Option<MissingColumn> {
    if last_named(names, "repo"@) is None {
        Some(MissingColumn::Repo)
    } else if last_named(names, "commit_id"@) is None {
        Some(MissingColumn::CommitId)
    } else if last_named(names, "rel_path"@) is None {
        Some(MissingColumn::RelPath)
    } else if last_named(names, "id"@) is None {
        Some(MissingColumn::Id)
    } else if last_named(names, "origin_url"@) is None {
        Some(MissingColumn::OriginUrl)
    } else if last_named(names, "rev_swhid"@) is None {
        Some(MissingColumn::RevSwhid)
    } else {
        None
    }
}

/// The columns that are read for the output.
pub open spec fn output_leaves(names: Seq<String>) -> Seq<usize> {
    seq![
        last_named(names, "repo"@)->0,
        last_named(names, "commit_id"@)->0,
        last_named(names, "rel_path"@)->0,
        last_named(names, "id"@)->0,
        last_named(names, "origin_url"@)->0,
        last_named(names, "rev_swhid"@)->0,
    ]
}

/// Finds the columns that pass through to the output by their names.
pub fn output_columns(names: &Vec<String>) -> (r: Result<OutputColumns, MissingColumn>)
    ensures
        match output_missing(names@) {
            Some(e) => r == Err::<OutputColumns, MissingColumn>(e),
            None => {
                let leaves = output_leaves(names@);
                &&& r matches Ok(c)
                &&& c.leaves@ == leaves
                &&& c.repo == rank(leaves, leaves[0])
                &&& c.commit_id == rank(leaves, leaves[1])
                &&& c.rel_path == rank(leaves, leaves[2])
                &&& c.id == rank(leaves, leaves[3])
                &&& c.origin_url == rank(leaves, leaves[4])
                &&& c.rev_swhid == rank(leaves, leaves[5])
            },
        },
{
    let mut leaves: Vec<usize> = Vec::new();
    match last_column(names, "repo") {
        Some(c) => leaves.push(c),
        None => {
            return Err(MissingColumn::Repo);
        },
    }
    match last_column(names, "commit_id") {
        Some(c) => leaves.push(c),
        None => {
            return Err(MissingColumn::CommitId);
        },
    }
    match last_column(names, "rel_path") {
        Some(c) => leaves.push(c),
        None => {
            return Err(MissingColumn::RelPath);
        },
    }
    match last_column(names, "id") {
        Some(c) => leaves.push(c),
        None => {
            return Err(MissingColumn::Id);
        },
    }
    match last_column(names, "origin_url") {
        Some(c) => leaves.push(c),
        None => {
            return Err(MissingColumn::OriginUrl);
        },
    }
    match last_column(names, "rev_swhid") {
        Some(c) => leaves.push(c),
        None => {
            return Err(MissingColumn::RevSwhid);
        },
    }
    assert(leaves@ =~= output_leaves(names@));
    let repo: usize = rank_among(&leaves, leaves[0]);
    let commit_id: usize = rank_among(&leaves, leaves[1]);
    let rel_path: usize = rank_among(&leaves, leaves[2]);
    let id: usize = rank_among(&leaves, leaves[3]);
    let origin_url: usize = rank_among(&leaves, leaves[4]);
    let rev_swhid: usize = rank_among(&leaves, leaves[5]);
    Ok(OutputColumns { leaves, repo, commit_id, rel_path, id, origin_url, rev_swhid })
}

} // verus!
