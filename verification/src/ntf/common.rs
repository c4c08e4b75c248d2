//! Types and utilities shared by the stages.

use vstd::prelude::*;

pub use crate::ntf::text::{
    build_qualified, canonical_github_url, normalize_path, normalize_rev_id,
    origin_swhid_from_url, path_components,
};

use crate::ntf::bits::{bits_of, lemma_bits_len, lemma_set_bit, lemma_zero_words, total_ones};
use crate::ntf::entries::{
    first_named, lemma_first_named_ascending, lemma_first_named_index, names_ascend, Entry,
};
use crate::ntf::maps::{NameIds, NodeRanks};
use crate::ntf::sorted::{lists, sort_distinct};

verus! {

/// Total node-id space of the export (largest node id + 1).
pub const N_NODES: u64 = 49_903_891_086;

/// Total number of distinct label-name ids of the export.
pub const N_LABELS: u64 = 6_191_838_569;

/// The id of a path component that is in no label table: a row that holds one never
/// resolves.
pub const FID_MISSING: u64 = u64::MAX;

/// The root of a row whose revision has no node or no root directory.
pub const ROOT_MISSING: u64 = u64::MAX;

/// The code of [`crate::ntf::graph::NodeType::Content`].
pub const TY_CONTENT: u8 = 0;

/// The code of [`crate::ntf::graph::NodeType::Directory`].
pub const TY_DIRECTORY: u8 = 1;

/// The code of [`crate::ntf::graph::NodeType::Revision`].
pub const TY_REVISION: u8 = 4;

/// One bit per node id. Its view is the set of the nodes whose bit is set.
pub struct NodeBitset {
    words: Vec<u64>,
    n_bits: usize,
}

impl View for NodeBitset {
    type V = Set<int>;

    closed spec fn view(&self) -> Set<int> {
        bits_of(self.words@)
    }
}

/// The number of bits in the words that hold `n` bits.
pub open spec fn rounded_to_words(n: nat) -> nat {
    64 * ((n + 63) / 64)
}

impl NodeBitset {
    /// There are just as many words as the bits need.
    pub closed spec fn wf(&self) -> bool {
        64 * self.words@.len() == rounded_to_words(self.n_bits as nat)
    }

    /// The number of nodes that the bitset was made for.
    pub closed spec fn spec_len(&self) -> usize {
        self.n_bits
    }

    /// Nodes below this have a bit: the number of nodes, rounded up to whole words.
    pub open spec fn capacity(&self) -> nat {
        rounded_to_words(self.spec_len() as nat)
    }

    /// A bitset for `num_nodes` nodes, with no bit set.
    pub fn new(num_nodes: usize) -> (r: NodeBitset)
        ensures
            r.wf(),
            r.spec_len() == num_nodes,
            r@ == Set::<int>::empty(),
    {
        let n_words: usize = num_nodes / 64 + if num_nodes % 64 == 0 {
            0
        } else {
            1
        };
        let words: Vec<u64> = vec![0u64; n_words];
        proof {
            lemma_zero_words(words@);
        }
        NodeBitset { words, n_bits: num_nodes }
    }

    /// Sets the bit of `node`; returns whether it was clear before.
    pub fn test_and_set(&mut self, node: usize) -> (r: bool)
        requires
            old(self).wf(),
            node < old(self).capacity(),
        ensures
            final(self).wf(),
            final(self).spec_len() == old(self).spec_len(),
            final(self)@ == old(self)@.insert(node as int),
            r == !old(self)@.contains(node as int),
    {
        let w: usize = node / 64;
        let mask: u64 = 1u64 << ((node % 64) as u64);
        let word: u64 = self.words[w];
        proof {
            lemma_set_bit(self.words@, node as int);
        }
        self.words.set(w, word | mask);
        word & mask == 0
    }

    /// Whether the bit of `node` is set.
    pub fn is_set(&self, node: usize) -> (r: bool)
        requires
            self.wf(),
            node < self.capacity(),
        ensures
            r == self@.contains(node as int),
    {
        let word: u64 = self.words[node / 64];
        let mask: u64 = 1u64 << ((node % 64) as u64);
        word & mask != 0
    }

    /// The number of nodes that the bitset was made for.
    pub fn len(&self) -> (r: usize)
        ensures
            r == self.spec_len(),
    {
        self.n_bits
    }

    /// Whether the bitset was made for no node at all.
    pub fn is_empty(&self) -> (r: bool)
        ensures
            r == (self.spec_len() == 0),
    {
        self.n_bits == 0
    }

    /// The number of bits that are set.
    pub fn count_set(&self) -> (r: u64)
        requires
            self.wf(),
            self@.len() <= u64::MAX,
        ensures
            self@.finite(),
            r == self@.len(),
    {
        proof {
            lemma_bits_len(self.words@);
        }
        total_ones(&self.words)
    }

    /// Only nodes that have a bit are ever set, so the set is finite.
    pub proof fn lemma_bounded(&self)
        requires
            self.wf(),
        ensures
            self@.finite(),
            self@.len() <= self.capacity(),
            forall|n: int| self@.contains(n) ==> 0 <= n < self.capacity(),
    {
        lemma_bits_len(self.words@);
    }
}

/// The number of bits that [`RequestedFid`] holds.
pub open spec fn fid_capacity() -> nat {
    rounded_to_words(N_LABELS as nat)
}

/// One bit per label-name id. Its view is the set of the ids that are requested: those of
/// the components of some path.
pub struct RequestedFid {
    words: Vec<u64>,
}

impl View for RequestedFid {
    type V = Set<int>;

    closed spec fn view(&self) -> Set<int> {
        bits_of(self.words@)
    }
}

impl RequestedFid {
    /// There are just as many words as the ids need.
    pub closed spec fn wf(&self) -> bool {
        64 * self.words@.len() == fid_capacity()
    }

    /// No id is requested.
    pub fn new() -> (r: RequestedFid)
        ensures
            r.wf(),
            r@ == Set::<int>::empty(),
    {
        let n_words: u64 = (N_LABELS + 63) / 64;
        let words: Vec<u64> = vec![0u64; n_words as usize];
        proof {
            lemma_zero_words(words@);
        }
        RequestedFid { words }
    }

    /// Requests `fid`.
    pub fn set(&mut self, fid: u64)
        requires
            old(self).wf(),
            fid < fid_capacity(),
        ensures
            final(self).wf(),
            final(self)@ == old(self)@.insert(fid as int),
    {
        let w: usize = (fid / 64) as usize;
        let mask: u64 = 1u64 << (fid % 64);
        let word: u64 = self.words[w];
        proof {
            lemma_set_bit(self.words@, fid as int);
        }
        self.words.set(w, word | mask);
    }

    /// Whether `fid` is requested.
    pub fn get(&self, fid: u64) -> (r: bool)
        requires
            self.wf(),
            fid < fid_capacity(),
        ensures
            r == self@.contains(fid as int),
    {
        let word: u64 = self.words[(fid / 64) as usize];
        let mask: u64 = 1u64 << (fid % 64);
        word & mask != 0
    }

    /// The number of requested ids.
    pub fn count_set(&self) -> (r: u64)
        requires
            self.wf(),
        ensures
            self@.finite(),
            r == self@.len(),
    {
        proof {
            lemma_bits_len(self.words@);
        }
        total_ones(&self.words)
    }
}

impl Default for RequestedFid {
    fn default() -> (r: RequestedFid)
        ensures
            r.wf(),
            r@ == Set::<int>::empty(),
    {
        RequestedFid::new()
    }
}

/// The entries at the positions from `s` to `e` of three parallel arrays.
pub open spec fn csr_row(fid: Seq<u64>, child: Seq<u64>, ty: Seq<u8>, s: int, e: int) -> Seq<Entry> {
    Seq::new((e - s) as nat, |j: int| (fid[s + j], child[s + j], ty[s + j]))
}

/// The entry named `fid` of directory `dir`.
pub open spec fn lookup_in(m: Map<u64, Seq<Entry>>, dir: u64, fid: u64) -> Option<(u64, u8)> {
    if m.contains_key(dir) {
        first_named(m[dir], fid)
    } else {
        None
    }
}

/// The directory map: of each directory its entries, sorted by name, so that one step of a
/// path is a binary search. Its view maps each directory to its row of entries.
///
/// `index` gives each directory a rank; the entries of the directory of rank `r` stand at
/// the positions from `offsets[r]` to `offsets[r + 1]` of the three `ent_*` arrays.
pub struct DirMap {
    pub index: NodeRanks,
    pub offsets: Vec<u64>,
    pub ent_fid: Vec<u64>,
    pub ent_child: Vec<u64>,
    pub ent_ty: Vec<u8>,
}

impl View for DirMap {
    type V = Map<u64, Seq<Entry>>;

    open spec fn view(&self) -> Map<u64, Seq<Entry>> {
        Map::new(|d: u64| self.index@.contains_key(d), |d: u64| self.row(self.index@[d] as int))
    }
}

impl DirMap {
    /// The entries of the directory of rank `r`.
    pub open spec fn row(&self, r: int) -> Seq<Entry> {
        csr_row(
            self.ent_fid@,
            self.ent_child@,
            self.ent_ty@,
            self.offsets@[r] as int,
            self.offsets@[r + 1] as int,
        )
    }

    /// The three entry arrays are parallel, and every rank in the index has a row whose
    /// names ascend.
    pub open spec fn wf(&self) -> bool {
        &&& self.ent_child@.len() == self.ent_fid@.len()
        &&& self.ent_ty@.len() == self.ent_fid@.len()
        &&& forall|d: u64| #[trigger]
            self.index@.contains_key(d) ==> {
                let r = self.index@[d] as int;
                &&& r + 1 < self.offsets@.len()
                &&& self.offsets@[r] <= self.offsets@[r + 1] <= self.ent_fid@.len()
                &&& names_ascend(self.row(r))
            }
    }

    /// Some directory has the rank `r`.
    pub open spec fn has_rank(&self, r: int) -> bool {
        exists|d: u64| #[trigger] self.index@.contains_key(d) && self.index@[d] == r
    }

    /// The directories have the ranks from 0 on, without a gap and in the order of their ids;
    /// the offsets start at 0, ascend strictly, number one more than the directories and end
    /// at the number of entries. So the rows fill the arrays, and none is empty.
    pub open spec fn is_compact(&self) -> bool {
        &&& self.offsets@.len() == self.index@.dom().len() + 1
        &&& self.offsets@[0] == 0
        &&& self.offsets@.last() == self.ent_fid@.len()
        &&& self.ent_child@.len() == self.ent_fid@.len()
        &&& self.ent_ty@.len() == self.ent_fid@.len()
        &&& forall|i: int, j: int|
            0 <= i < j < self.offsets@.len() ==> self.offsets@[i] < self.offsets@[j]
        &&& forall|d: u64| #[trigger]
            self.index@.contains_key(d) ==> self.index@[d] < self.offsets@.len() - 1
        &&& forall|d: u64, e: u64|
            #![trigger self.index@.contains_key(d), self.index@.contains_key(e)]
            self.index@.contains_key(d) && self.index@.contains_key(e) && d < e
                ==> self.index@[d] < self.index@[e]
        &&& forall|r: int| 0 <= r < self.offsets@.len() - 1 ==> #[trigger] self.has_rank(r)
    }

    /// The rank of a directory, where the map has it.
    pub fn rank_of(&self, dir: u64) -> (r: Option<u32>)
        ensures
            r == (if self.index@.contains_key(dir) {
                Some(self.index@[dir])
            } else {
                None
            }),
    {
        self.index.get(dir)
    }

    /// One step of a path: the child and the type code of the entry named `fid` of `dir`.
    pub fn lookup(&self, dir: u64, fid: u64) -> (r: Option<(u64, u8)>)
        requires
            self.wf(),
        ensures
            r == lookup_in(self@, dir, fid),
    {
        let rank: usize = match self.rank_of(dir) {
            Some(rank) => rank as usize,
            None => {
                return None;
            },
        };
        let n_offsets: usize = self.offsets.len();
        let n_entries: usize = self.ent_fid.len();
        assert(self.index@.contains_key(dir));
        assert(rank + 1 < n_offsets && self.offsets@[rank + 1] <= n_entries);
        let s: usize = self.offsets[rank] as usize;
        let e: usize = self.offsets[rank + 1] as usize;
        let ghost row = self.row(rank as int);
        assert(self@[dir] == row);
        let mut lo: usize = s;
        let mut hi: usize = e;
        while lo < hi
            invariant
                s <= lo <= hi <= e <= self.ent_fid@.len(),
                self.ent_child@.len() == self.ent_fid@.len(),
                self.ent_ty@.len() == self.ent_fid@.len(),
                row == csr_row(self.ent_fid@, self.ent_child@, self.ent_ty@, s as int, e as int),
                names_ascend(row),
                self@.contains_key(dir),
                self@[dir] == row,
                forall|j: int| 0 <= j < lo - s ==> (#[trigger] row[j]).0 < fid,
                forall|j: int| hi - s <= j < e - s ==> (#[trigger] row[j]).0 > fid,
            decreases hi - lo,
        {
            let mid: usize = lo + (hi - lo) / 2;
            let name: u64 = self.ent_fid[mid];
            assert(row[mid - s] == (name, self.ent_child@[mid as int], self.ent_ty@[mid as int]));
            if name == fid {
                proof {
                    lemma_first_named_ascending(row, mid - s);
                }
                return Some((self.ent_child[mid], self.ent_ty[mid]));
            } else if name < fid {
                lo = mid + 1;
            } else {
                hi = mid;
            }
        }
        proof {
            if first_named(row, fid) is Some {
                let k = lemma_first_named_index(row, fid);
                assert(row[k].0 == fid);
            }
        }
        None
    }

    /// The number of directories.
    pub fn num_dirs(&self) -> (r: usize)
        ensures
            r == (if self.offsets@.len() == 0 {
                0
            } else {
                self.offsets@.len() - 1
            }),
    {
        self.offsets.len().saturating_sub(1)
    }

    /// The number of entries.
    pub fn num_entries(&self) -> (r: usize)
        ensures
            r == self.ent_fid@.len(),
    {
        self.ent_fid.len()
    }
}

/// What is known of the names on the paths: the ids that are requested, and the id of each
/// name that is in the label table.
pub struct Names {
    pub requested: RequestedFid,
    pub component_fid: NameIds,
}

impl Names {
    /// The id of a name, where it was found in the label table.
    pub fn id_of(&self, name: &Vec<u8>) -> (r: Option<u64>)
        ensures
            r == (if self.component_fid@.contains_key(name@) {
                Some(self.component_fid@[name@])
            } else {
                None
            }),
    {
        self.component_fid.get(name)
    }
}

/// What the walk of each row starts from: the root directory of row `i` is `root[i]`, the
/// names on its path are those of `path_fids` from `path_off[i]` to `path_off[i + 1]`, and
/// its output partition is `bin[i]`.
pub struct Seeds {
    pub n_rows: usize,
    pub root: Vec<u64>,
    pub path_off: Vec<u64>,
    pub path_fids: Vec<u64>,
    pub bin: Vec<u16>,
}

impl Seeds {
    /// The arrays are as long as the rows need, and the paths fill `path_fids`, one behind
    /// the other.
    pub open spec fn wf(&self) -> bool {
        &&& self.root@.len() == self.n_rows
        &&& self.bin@.len() == self.n_rows
        &&& self.path_off@.len() == self.n_rows + 1
        &&& self.path_off@[0] == 0
        &&& self.path_off@.last() == self.path_fids@.len()
        &&& forall|i: int, j: int|
            0 <= i <= j < self.path_off@.len() ==> self.path_off@[i] <= self.path_off@[j]
    }

    /// The names on the path of `row`.
    pub open spec fn path(&self, row: int) -> Seq<u64> {
        self.path_fids@.subrange(self.path_off@[row] as int, self.path_off@[row + 1] as int)
    }

    /// The names on the path of `row`.
    pub fn path_of(&self, row: usize) -> (r: &[u64])
        requires
            row + 1 < self.path_off@.len(),
            self.path_off@[row as int] <= self.path_off@[row + 1] <= self.path_fids@.len(),
        ensures
            r@ == self.path(row as int),
    {
        let n_off: usize = self.path_off.len();
        let n_fids: usize = self.path_fids.len();
        assert(row + 1 < n_off && self.path_off@[row + 1] <= n_fids);
        let s: usize = self.path_off[row] as usize;
        let e: usize = self.path_off[row + 1] as usize;
        vstd::slice::slice_subrange(self.path_fids.as_slice(), s, e)
    }

    /// The root directories of the rows that have one.
    pub open spec fn roots(&self) -> Set<usize> {
        roots_of(self.root@)
    }

    /// The root directories of the rows that have one, sorted and each once.
    pub fn distinct_roots(&self) -> (r: Vec<usize>)
        ensures
            lists(r@, self.roots()),
    {
        let mut v: Vec<usize> = Vec::new();
        let mut i: usize = 0;
        while i < self.root.len()
            invariant
                i <= self.root@.len(),
                v@.to_set() == roots_of(self.root@.take(i as int)),
            decreases self.root@.len() - i,
        {
            let root: u64 = self.root[i];
            let ghost before = v@;
            if root != ROOT_MISSING {
                v.push(root as usize);
            }
            proof {
                lemma_roots_push(self.root@.take(i as int), root);
                assert(self.root@.take(i + 1) =~= self.root@.take(i as int).push(root));
                if root != ROOT_MISSING {
                    assert(v@.to_set() =~= before.to_set().insert(root as usize)) by {
                        assert(v@ == before.push(root as usize));
                        assert(v@[before.len() as int] == root as usize);
                        assert forall|n: usize| before.contains(n) implies v@.contains(n) by {
                            let k = choose|k: int| 0 <= k < before.len() && before[k] == n;
                            assert(v@[k] == n);
                        }
                    }
                }
            }
            i = i + 1;
        }
        assert(self.root@.take(i as int) =~= self.root@);
        sort_distinct(v)
    }
}

/// The nodes among `root` that are not missing.
pub open spec fn roots_of(root: Seq<u64>) -> Set<usize> {
    Set::new(
        |n: usize|
            exists|i: int|
                0 <= i < root.len() && #[trigger] root[i] != ROOT_MISSING && root[i] as usize == n,
    )
}

proof fn lemma_roots_push(root: Seq<u64>, r: u64)
    ensures
        roots_of(root.push(r)) == (if r == ROOT_MISSING {
            roots_of(root)
        } else {
            roots_of(root).insert(r as usize)
        }),
{
    let after = root.push(r);
    assert forall|n: usize| roots_of(root).contains(n) implies roots_of(after).contains(n) by {
        let i = choose|i: int|
            0 <= i < root.len() && #[trigger] root[i] != ROOT_MISSING && root[i] as usize == n;
        assert(after[i] == root[i]);
    }
    assert(after[root.len() as int] == r);
    assert forall|n: usize| roots_of(after).contains(n) implies roots_of(root).contains(n) || (r
        != ROOT_MISSING && n == r as usize) by {
        let i = choose|i: int|
            0 <= i < after.len() && #[trigger] after[i] != ROOT_MISSING && after[i] as usize == n;
        if i < root.len() {
            assert(root[i] == after[i]);
        }
    }
    assert(roots_of(after) =~= (if r == ROOT_MISSING {
        roots_of(root)
    } else {
        roots_of(root).insert(r as usize)
    }));
}

/// How the walk of a row ended.
#[derive(Clone, Copy, PartialEq, Eq, Structural, Debug)]
pub enum Status {
    /// At a content.
    Resolved,
    /// A name on the path is missing from its directory.
    NotFound,
    /// At a submodule, in the middle of the path or at its end.
    Submodule,
    /// At a directory.
    DirTarget,
    /// The revision has no node.
    BadRev,
    /// The revision has no root directory.
    NoRoot,
}

/// The number of a status.
pub open spec fn status_code(s: Status) -> u8 {
    match s {
        Status::Resolved => 0,
        Status::NotFound => 1,
        Status::Submodule => 2,
        Status::DirTarget => 3,
        Status::BadRev => 4,
        Status::NoRoot => 5,
    }
}

impl Status {
    /// The word for a status in the output: there are only two.
    pub fn output_str(self) -> (r: &'static str)
        ensures
            r@ == (if self == Status::Resolved {
                "ok"@
            } else {
                "path_not_found"@
            }),
    {
        match self {
            Status::Resolved => "ok",
            _ => "path_not_found",
        }
    }

    /// The status with the given number; [`Status::NoRoot`], where no status has it.
    pub fn from_u8(v: u8) -> (r: Status)
        ensures
            v <= 5 ==> status_code(r) == v,
            v > 5 ==> r == Status::NoRoot,
    {
        match v {
            0 => Status::Resolved,
            1 => Status::NotFound,
            2 => Status::Submodule,
            3 => Status::DirTarget,
            4 => Status::BadRev,
            _ => Status::NoRoot,
        }
    }

    /// The number of this status.
    pub fn as_u8(self) -> (r: u8)
        ensures
            r == status_code(self),
    {
        match self {
            Status::Resolved => 0,
            Status::NotFound => 1,
            Status::Submodule => 2,
            Status::DirTarget => 3,
            Status::BadRev => 4,
            Status::NoRoot => 5,
        }
    }
}

} // verus!
