//! From raw metadata to candidates: which revision each repository and commit prefix of the
//! input stands for.
//!
//! The commits are full hashes or prefixes of one, and the column decides as a whole: only where
//! every commit is a full hash does each name its revision directly. A table that mixes full
//! hashes and prefixes treats all of them as prefixes, each cut to the given number of digits.
//!
//! Among the revisions that a commit may stand for, the winner is one from which a walk
//! backwards comes to a snapshot of the origin; see [`crate::ntf::provenance`].

use vstd::prelude::*;
use vstd::utf8::encode_utf8;

use crate::ntf::graph::{bidirectional_is, graph_is, BackwardGraph, GraphModel};
use crate::ntf::maps::{GroupKey, RowGroup, RowGroups};
use crate::ntf::prefix::{build_rev_prefix_index, indexes, rev_nodes, PrefixIndex};
use crate::ntf::provenance::{
    build_snapshot_set, comes_from, passing, pool, root_dir, root_dir_of_rev, select_winner,
    snapshots, winner,
};
use crate::ntf::sorted::{ascends, sort_distinct};
use crate::ntf::text::{
    canonical_github_url, full_rev_id, github_url, normalize_rev_id, origin_swhid,
    origin_swhid_from_url,
};

verus! {

/// The input, column by column.
pub struct Input {
    pub repo: Vec<String>,
    pub commit_id: Vec<String>,
    pub rel_path: Vec<String>,
    pub bin: Vec<String>,
}

impl Input {
    /// The columns are equally long.
    pub open spec fn wf(&self) -> bool {
        &&& self.commit_id@.len() == self.repo@.len()
        &&& self.rel_path@.len() == self.repo@.len()
        &&& self.bin@.len() == self.repo@.len()
    }

    /// The repository and the commit of row `i`.
    pub open spec fn key(&self, i: int) -> GroupKey {
        (self.repo@[i]@, self.commit_id@[i]@)
    }

    /// The rows below `n` with the given repository and commit, in ascending order.
    pub open spec fn rows_with(&self, key: GroupKey, n: int) -> Seq<usize>
        decreases n,
    {
        if n <= 0 {
            Seq::empty()
        } else if self.key(n - 1) == key {
            self.rows_with(key, n - 1).push((n - 1) as usize)
        } else {
            self.rows_with(key, n - 1)
        }
    }

    /// The rows with the given repository and commit.
    pub open spec fn group(&self, key: GroupKey) -> Seq<usize> {
        self.rows_with(key, self.repo@.len() as int)
    }
}

/// One batch of the input. The column of the bins may be missing.
pub struct InputBatch {
    pub repo: Vec<String>,
    pub commit_id: Vec<String>,
    pub rel_path: Vec<String>,
    pub bin: Option<Vec<String>>,
}

impl InputBatch {
    /// The columns are equally long.
    pub open spec fn wf(&self) -> bool {
        &&& self.commit_id@.len() == self.repo@.len()
        &&& self.rel_path@.len() == self.repo@.len()
        &&& self.bin matches Some(b) ==> b@.len() == self.repo@.len()
    }
}

impl Input {
    /// No rows.
    pub fn new() -> (r: Input)
        ensures
            r.wf(),
            r.repo@.len() == 0,
    {
        Input { repo: Vec::new(), commit_id: Vec::new(), rel_path: Vec::new(), bin: Vec::new() }
    }

    /// Appends the rows of a batch. Where the column of the bins is missing, they are empty.
    pub fn append(&mut self, batch: InputBatch)
        requires
            old(self).wf(),
            batch.wf(),
        ensures
            final(self).wf(),
            final(self).repo@ == old(self).repo@ + batch.repo@,
            final(self).commit_id@ == old(self).commit_id@ + batch.commit_id@,
            final(self).rel_path@ == old(self).rel_path@ + batch.rel_path@,
            match batch.bin {
                Some(b) => final(self).bin@ == old(self).bin@ + b@,
                None => {
                    let before = old(self).bin@;
                    let after = final(self).bin@;
                    &&& after.take(before.len() as int) == before
                    &&& forall|i: int|
                        before.len() <= i < after.len() ==> (#[trigger] after[i])@ == Seq::<
                            char,
                        >::empty()
                },
            },
    {
        let mut bin = match batch.bin {
            Some(b) => b,
            None => empty_texts(batch.repo.len()),
        };
        let mut repo = batch.repo;
        let mut commit_id = batch.commit_id;
        let mut rel_path = batch.rel_path;
        self.repo.append(&mut repo);
        self.commit_id.append(&mut commit_id);
        self.rel_path.append(&mut rel_path);
        let ghost before = self.bin@;
        self.bin.append(&mut bin);
        assert(self.bin@.take(before.len() as int) =~= before);
    }
}

/// As many empty texts.
fn empty_texts(n: usize) -> (r: Vec<String>)
    ensures
        r@.len() == n,
        forall|i: int| 0 <= i < n ==> (#[trigger] r@[i])@ == Seq::<char>::empty(),
{
    let mut v: Vec<String> = Vec::new();
    let mut i: usize = 0;
    while i < n
        invariant
            i <= n,
            v@.len() == i,
            forall|k: int| 0 <= k < i ==> (#[trigger] v@[k])@ == Seq::<char>::empty(),
        decreases n - i,
    {
        v.push(String::new());
        i = i + 1;
    }
    v
}

/// One resolved row.
pub struct OutRow {
    pub repo: String,
    pub commit_id: String,
    pub rel_path: String,
    pub rev_swhid: String,
    pub origin_url: String,
    pub bin: String,
}

/// One resolved row as mathematics sees it.
pub struct RowText {
    pub repo: Seq<char>,
    pub commit_id: Seq<char>,
    pub rel_path: Seq<char>,
    pub rev_swhid: Seq<char>,
    pub origin_url: Seq<char>,
    pub bin: Seq<char>,
}

impl View for OutRow {
    type V = RowText;

    open spec fn view(&self) -> RowText {
        RowText {
            repo: self.repo@,
            commit_id: self.commit_id@,
            rel_path: self.rel_path@,
            rev_swhid: self.rev_swhid@,
            origin_url: self.origin_url@,
            bin: self.bin@,
        }
    }
}

/// Rows as mathematics sees them.
pub open spec fn rows_view(rows: Seq<OutRow>) -> Seq<RowText> {
    rows.map_values(|r: OutRow| r@)
}

/// Row `i` of the input, resolved to the revision `rev_swhid` of the origin `origin_url`.
pub open spec fn row_text(inp: Input, i: int, rev_swhid: Seq<char>, origin_url: Seq<char>) -> RowText {
    RowText {
        repo: inp.repo@[i]@,
        commit_id: inp.commit_id@[i]@,
        rel_path: inp.rel_path@[i]@,
        rev_swhid,
        origin_url,
        bin: inp.bin@[i]@,
    }
}

/// The given rows of the input, resolved.
pub open spec fn rows_text(
    inp: Input,
    rows: Seq<usize>,
    rev_swhid: Seq<char>,
    origin_url: Seq<char>,
) -> Seq<RowText> {
    Seq::new(rows.len(), |k: int| row_text(inp, rows[k] as int, rev_swhid, origin_url))
}

/// An ASCII letter in lower case, every other byte as it is.
pub open spec fn lower(b: u8) -> u8 {
    if 0x41 <= b <= 0x5a {
        (b + 0x20) as u8
    } else {
        b
    }
}

/// The key under which a commit prefix is looked up: its first bytes, in lower case.
pub open spec fn commit_key(commit: Seq<char>, nibbles: nat) -> Seq<u8> {
    let bytes = encode_utf8(commit);
    let n = if nibbles < bytes.len() {
        nibbles
    } else {
        bytes.len()
    };
    bytes.take(n as int).map_values(|b: u8| lower(b))
}

/// The key under which a commit prefix is looked up.
pub fn prefix_key(commit: &str, prefix_nibbles: usize) -> (r: Vec<u8>)
    ensures
        r@ == commit_key(commit@, prefix_nibbles as nat),
{
    let bytes = commit.as_bytes();
    let n: usize = if prefix_nibbles < bytes.len() {
        prefix_nibbles
    } else {
        bytes.len()
    };
    let mut key: Vec<u8> = Vec::new();
    let mut i: usize = 0;
    while i < n
        invariant
            i <= n <= bytes@.len(),
            key@.len() == i,
            forall|j: int| 0 <= j < i ==> #[trigger] key@[j] == lower(bytes@[j]),
        decreases n - i,
    {
        let b: u8 = bytes[i];
        key.push(
            if 0x41 <= b && b <= 0x5a {
                b + 0x20
            } else {
                b
            },
        );
        i = i + 1;
    }
    assert(key@ =~= commit_key(commit@, prefix_nibbles as nat));
    key
}

/// Whether a byte is a hexadecimal digit, in lower or upper case.
pub open spec fn is_hex_byte(b: u8) -> bool {
    0x30 <= b <= 0x39 || 0x41 <= b <= 0x46 || 0x61 <= b <= 0x66
}

/// Whether a commit is a full hash.
pub open spec fn is_full_hash(commit: Seq<char>) -> bool {
    let bytes = encode_utf8(commit);
    bytes.len() == 40 && forall|i: int| 0 <= i < 40 ==> is_hex_byte(#[trigger] bytes[i])
}

/// Whether a commit is a full hash.
fn full_hash(commit: &str) -> (r: bool)
    ensures
        r == is_full_hash(commit@),
{
    let bytes = commit.as_bytes();
    if bytes.len() != 40 {
        return false;
    }
    let mut i: usize = 0;
    while i < 40
        invariant
            i <= 40,
            bytes@.len() == 40,
            bytes@ == encode_utf8(commit@),
            forall|j: int| 0 <= j < i ==> is_hex_byte(#[trigger] bytes@[j]),
        decreases 40 - i,
    {
        let b: u8 = bytes[i];
        if !((0x30 <= b && b <= 0x39) || (0x41 <= b && b <= 0x46) || (0x61 <= b && b <= 0x66)) {
            assert(!is_hex_byte(bytes@[i as int]));
            return false;
        }
        i = i + 1;
    }
    true
}

/// Whether there are commits, and all of them are full hashes.
pub open spec fn all_full(commits: Seq<String>) -> bool {
    commits.len() > 0 && forall|i: int| 0 <= i < commits.len() ==> is_full_hash(#[trigger] commits[i]@)
}

/// Whether there are commits, and all of them are full hashes.
pub fn all_full_hashes(commits: &Vec<String>) -> (r: bool)
    ensures
        r == all_full(commits@),
{
    let mut i: usize = 0;
    while i < commits.len()
        invariant
            i <= commits@.len(),
            forall|j: int| 0 <= j < i ==> is_full_hash(#[trigger] commits@[j]@),
        decreases commits@.len() - i,
    {
        if !full_hash(commits[i].as_str()) {
            assert(!is_full_hash(commits@[i as int]@));
            return false;
        }
        i = i + 1;
    }
    commits.len() > 0
}

/// The revisions that a full hash stands for.
pub open spec fn full_hash_nodes(g: GraphModel, commit: Seq<char>) -> Set<usize> {
    match (g.node_id)(full_rev_id(commit)) {
        Some(n) => set![n],
        None => Set::empty(),
    }
}

/// The revisions that a commit may stand for: those that the index has for its prefix or,
/// without an index, the one that it is the full hash of.
pub open spec fn candidates(
    g: GraphModel,
    index: Option<&PrefixIndex>,
    nibbles: nat,
    commit: Seq<char>,
) -> Set<usize> {
    match index {
        Some(ix) => ix.nodes(commit_key(commit, nibbles)).to_set(),
        None => full_hash_nodes(g, commit),
    }
}

/// The winner among `cands` for an origin: it must have a root directory.
pub open spec fn winner_for(g: GraphModel, origin: Option<usize>, cands: Set<usize>) -> Option<
    usize,
> {
    match origin {
        Some(o) => match winner(g, snapshots(g, o), cands) {
            Some(w) => if root_dir(g, w) is Some {
                Some(w)
            } else {
                None
            },
            None => None,
        },
        None => None,
    }
}

/// Without snapshots there is no winner, nor without candidates.
proof fn lemma_no_winner(g: GraphModel, snaps: Set<usize>, cands: Set<usize>)
    requires
        snaps.is_empty() || cands.is_empty(),
    ensures
        winner(g, snaps, cands) is None,
{
    assert forall|rev: usize| !passing(g, snaps, cands).contains(rev) by {
        if passing(g, snaps, cands).contains(rev) {
            assert(comes_from(g, snaps, rev));
        }
    }
    assert(passing(g, snaps, cands) =~= Set::empty());
    assert(pool(g, snaps, cands) =~= Set::empty());
}

/// The revisions that a commit may stand for, in ascending order.
fn candidate_nodes<G: BackwardGraph>(
    graph: &G,
    index: Option<&PrefixIndex>,
    prefix_nibbles: usize,
    commit: &str,
) -> (r: Vec<usize>)
    requires
        index matches Some(ix) ==> ix.wf(),
    ensures
        ascends(r@),
        forall|g: GraphModel| #[trigger]
            graph_is(graph, g) ==> r@.to_set() == candidates(
                g,
                index,
                prefix_nibbles as nat,
                commit@,
            ),
{
    let mut nodes: Vec<usize> = Vec::new();
    match index {
        None => {
            let rid = normalize_rev_id(commit);
            let text: &str = match &rid {
                std::borrow::Cow::Borrowed(s) => s,
                std::borrow::Cow::Owned(s) => s.as_str(),
            };
            assert(text@ == full_rev_id(commit@));
            let found = graph.node_id(text);
            if let Some(n) = found {
                nodes.push(n);
            }
            assert forall|g: GraphModel| #[trigger] graph_is(graph, g) implies nodes@.to_set()
                == candidates(g, index, prefix_nibbles as nat, commit@) by {
                if let Some(n) = found {
                    assert(nodes@[0] == n);
                    assert(nodes@.to_set() =~= set![n]);
                } else {
                    assert(nodes@.to_set() =~= Set::<usize>::empty());
                }
            }
        },
        Some(ix) => {
            let key = prefix_key(commit, prefix_nibbles);
            if let Some(list) = ix.lookup_prefix(key.as_slice()) {
                nodes.extend_from_slice(list.as_slice());
                assert(nodes@ =~= list@);
            } else {
                assert(ix.nodes(key@) =~= Seq::<usize>::empty());
            }
        },
    }
    let ghost before = nodes@;
    let sorted = sort_distinct(nodes);
    assert(sorted@.to_set() =~= before.to_set()) by {
        assert forall|n: usize| sorted@.to_set().contains(n) <==> before.to_set().contains(n) by {
            assert(sorted@.contains(n) <==> before.to_set().contains(n));
        }
    }
    sorted
}

/// Resolves the rows `idxs` of one repository and commit to the winner among the candidates,
/// where the origin has the given node and URL.
pub fn resolve_in_origin<G: BackwardGraph>(
    graph: &G,
    index: Option<&PrefixIndex>,
    prefix_nibbles: usize,
    origin: Option<usize>,
    origin_url: &str,
    commit: &str,
    idxs: &Vec<usize>,
    inp: &Input,
) -> (r: Option<Vec<OutRow>>)
    requires
        index matches Some(ix) ==> ix.wf(),
        inp.wf(),
        forall|k: int| 0 <= k < idxs@.len() ==> #[trigger] idxs@[k] < inp.repo@.len(),
    ensures
        forall|g: GraphModel| #[trigger]
            bidirectional_is(graph, g) ==> match winner_for(
                g,
                origin,
                candidates(g, index, prefix_nibbles as nat, commit@),
            ) {
                Some(w) => r matches Some(rows) && rows_view(rows@) == rows_text(
                    *inp,
                    idxs@,
                    (g.swhid)(w),
                    origin_url@,
                ),
                None => r is None,
            },
{
    let origin_node: usize = match origin {
        Some(o) => o,
        None => {
            return None;
        },
    };
    let (snapshot_list, snapshot_set) = build_snapshot_set(graph, origin_node);
    if snapshot_list.len() == 0 {
        assert(snapshot_list@.to_set() =~= Set::<usize>::empty());
        assert forall|g: GraphModel| #[trigger] bidirectional_is(graph, g) implies winner_for(
            g,
            origin,
            candidates(g, index, prefix_nibbles as nat, commit@),
        ) is None by {
            lemma_no_winner(
                g,
                snapshots(g, origin_node),
                candidates(g, index, prefix_nibbles as nat, commit@),
            );
        }
        return None;
    }
    let cands = candidate_nodes(graph, index, prefix_nibbles, commit);
    let w: usize = match select_winner(graph, &snapshot_list, &snapshot_set, &cands) {
        Some(w) => w,
        None => {
            return None;
        },
    };
    if root_dir_of_rev(graph, w).is_none() {
        return None;
    }
    let rev_swhid = graph.swhid(w);
    let mut rows: Vec<OutRow> = Vec::new();
    let mut k: usize = 0;
    while k < idxs.len()
        invariant
            k <= idxs@.len(),
            inp.wf(),
            forall|k: int| 0 <= k < idxs@.len() ==> #[trigger] idxs@[k] < inp.repo@.len(),
            rows@.len() == k,
            forall|j: int|
                0 <= j < k ==> (#[trigger] rows@[j])@ == row_text(
                    *inp,
                    idxs@[j] as int,
                    rev_swhid@,
                    origin_url@,
                ),
        decreases idxs@.len() - k,
    {
        let i: usize = idxs[k];
        rows.push(
            OutRow {
                repo: inp.repo[i].clone(),
                commit_id: inp.commit_id[i].clone(),
                rel_path: inp.rel_path[i].clone(),
                rev_swhid: rev_swhid.clone(),
                origin_url: origin_url.to_owned(),
                bin: inp.bin[i].clone(),
            },
        );
        k = k + 1;
    }
    assert(rows_view(rows@) =~= rows_text(*inp, idxs@, rev_swhid@, origin_url@));
    Some(rows)
}

/// The revision that a repository and a commit stand for.
pub open spec fn group_rev(g: GraphModel, repo: Seq<char>, cands: Set<usize>) -> Option<usize> {
    winner_for(g, (g.node_id)(origin_swhid(github_url(repo))), cands)
}

/// Resolves the rows `idxs` of one repository and commit.
pub fn resolve_group<G: BackwardGraph>(
    graph: &G,
    index: Option<&PrefixIndex>,
    prefix_nibbles: usize,
    repo_key: &str,
    commit_key: &str,
    idxs: &Vec<usize>,
    inp: &Input,
) -> (r: Option<Vec<OutRow>>)
    requires
        index matches Some(ix) ==> ix.wf(),
        inp.wf(),
        forall|k: int| 0 <= k < idxs@.len() ==> #[trigger] idxs@[k] < inp.repo@.len(),
    ensures
        forall|g: GraphModel| #[trigger]
            bidirectional_is(graph, g) ==> match group_rev(
                g,
                repo_key@,
                candidates(g, index, prefix_nibbles as nat, commit_key@),
            ) {
                Some(w) => r matches Some(rows) && rows_view(rows@) == rows_text(
                    *inp,
                    idxs@,
                    (g.swhid)(w),
                    github_url(repo_key@),
                ),
                None => r is None,
            },
{
    let url = canonical_github_url(repo_key);
    let swhid = origin_swhid_from_url(url.as_str());
    let origin = graph.node_id(swhid.as_str());
    resolve_in_origin(
        graph,
        index,
        prefix_nibbles,
        origin,
        url.as_str(),
        commit_key,
        idxs,
        inp,
    )
}

/// The rows of the input by repository and commit.
pub open spec fn groups_are(inp: Input, n: int, groups: Map<GroupKey, Seq<usize>>) -> bool {
    forall|key: GroupKey|
        #![trigger groups.contains_key(key)]
        #![trigger inp.rows_with(key, n)]
        {
            &&& groups.contains_key(key) <==> inp.rows_with(key, n).len() > 0
            &&& groups.contains_key(key) ==> groups[key] == inp.rows_with(key, n)
        }
}

proof fn lemma_rows_with(inp: Input, key: GroupKey, n: int)
    requires
        0 <= n <= inp.repo@.len() <= usize::MAX,
    ensures
        forall|k: int|
            0 <= k < inp.rows_with(key, n).len() ==> #[trigger] inp.rows_with(key, n)[k] < n,
    decreases n,
{
    if n > 0 {
        lemma_rows_with(inp, key, n - 1);
        let before = inp.rows_with(key, n - 1);
        assert forall|k: int| 0 <= k < inp.rows_with(key, n).len() implies #[trigger] inp.rows_with(
            key,
            n,
        )[k] < n by {
            if k < before.len() {
                assert(before[k] < n - 1);
            }
        }
    }
}

/// Groups the rows of the input by repository and commit. The order of the groups is not
/// determined.
pub fn group_rows(inp: &Input) -> (r: Vec<RowGroup>)
    requires
        inp.wf(),
    ensures
        forall|i: int|
            0 <= i < r@.len() ==> (#[trigger] r@[i]).rows@.len() > 0 && r@[i].rows@ == inp.group(
                r@[i].key(),
            ),
        forall|i: int, j: int| 0 <= i < j < r@.len() ==> r@[i].key() != r@[j].key(),
        forall|key: GroupKey| #[trigger]
            inp.group(key).len() > 0 ==> exists|i: int|
                0 <= i < r@.len() && (#[trigger] r@[i]).key() == key,
{
    let mut groups = RowGroups::new();
    let n_rows: usize = inp.repo.len();
    let mut i: usize = 0;
    while i < n_rows
        invariant
            i <= n_rows == inp.repo@.len(),
            inp.wf(),
            groups_are(*inp, i as int, groups@),
        decreases n_rows - i,
    {
        let ghost before = groups@;
        groups.push(inp.repo[i].as_str(), inp.commit_id[i].as_str(), i);
        assert(groups_are(*inp, i + 1, groups@)) by {
            assert forall|key: GroupKey| {
                &&& #[trigger] groups@.contains_key(key) <==> inp.rows_with(key, i + 1).len() > 0
                &&& groups@.contains_key(key) ==> groups@[key] == inp.rows_with(key, i + 1)
            } by {
                assert(before.contains_key(key) <==> inp.rows_with(key, i as int).len() > 0);
                if !before.contains_key(key) {
                    assert(inp.rows_with(key, i as int) =~= Seq::empty());
                }
            }
        }
        i = i + 1;
    }
    let ghost all = groups@;
    let r = groups.into_groups();
    assert forall|key: GroupKey| #[trigger] inp.group(key).len() > 0 implies exists|i: int|
        0 <= i < r@.len() && (#[trigger] r@[i]).key() == key by {
        assert(inp.rows_with(key, n_rows as int).len() > 0);
        assert(all.contains_key(key));
    }
    r
}

/// The revision that a repository and a commit stand for, where `full` says whether all
/// commits of the input are full hashes.
pub open spec fn key_rev(g: GraphModel, full: bool, nibbles: nat, key: GroupKey) -> Option<usize> {
    group_rev(
        g,
        key.0,
        if full {
            full_hash_nodes(g, key.1)
        } else {
            rev_nodes(g, nibbles, commit_key(key.1, nibbles), 0, g.num_nodes as int).to_set()
        },
    )
}

/// The resolved rows of a repository and a commit that stand for a revision.
pub open spec fn key_rows(g: GraphModel, inp: Input, nibbles: nat, key: GroupKey) -> Seq<RowText> {
    let rev = key_rev(g, all_full(inp.commit_id@), nibbles, key);
    rows_text(inp, inp.group(key), (g.swhid)(rev->0), github_url(key.0))
}

/// Whether a repository and a commit occur in the input and stand for a revision.
pub open spec fn key_resolves(g: GraphModel, inp: Input, nibbles: nat, key: GroupKey) -> bool {
    inp.group(key).len() > 0 && key_rev(g, all_full(inp.commit_id@), nibbles, key) is Some
}

/// `out` holds the rows of the keys in `order`, group by group, and these are just the keys
/// of the input that stand for a revision, once each.
pub open spec fn resolved_in(
    g: GraphModel,
    inp: Input,
    nibbles: nat,
    order: Seq<GroupKey>,
    out: Seq<Vec<OutRow>>,
) -> bool {
    &&& order.no_duplicates()
    &&& forall|key: GroupKey| #[trigger]
        order.contains(key) <==> key_resolves(g, inp, nibbles, key)
    &&& out.len() == order.len()
    &&& forall|i: int|
        0 <= i < out.len() ==> rows_view((#[trigger] out[i])@) == key_rows(
            g,
            inp,
            nibbles,
            order[i],
        )
}

/// `out` holds the rows of just the keys of the input that stand for a revision, group by
/// group in some order.
pub open spec fn is_resolved(g: GraphModel, inp: Input, nibbles: nat, out: Seq<Vec<OutRow>>) -> bool {
    exists|order: Seq<GroupKey>| resolved_in(g, inp, nibbles, order, out)
}

/// Resolves the input: for each repository and commit that stands for a revision, its rows.
/// The order of the groups is not determined.
pub fn resolve_candidates<G: BackwardGraph>(graph: &G, inp: &Input, prefix_nibbles: usize) -> (r:
    Vec<Vec<OutRow>>)
    requires
        inp.wf(),
    ensures
        forall|g: GraphModel| #[trigger]
            bidirectional_is(graph, g) ==> is_resolved(g, *inp, prefix_nibbles as nat, r@),
{
    let full: bool = all_full_hashes(&inp.commit_id);
    let built: Option<PrefixIndex> = if full {
        None
    } else {
        Some(build_rev_prefix_index(graph, prefix_nibbles))
    };
    let index: Option<&PrefixIndex> = match &built {
        Some(ix) => Some(ix),
        None => None,
    };
    let groups = group_rows(inp);
    let mut out: Vec<Vec<OutRow>> = Vec::new();
    let ghost mut order: Seq<GroupKey> = Seq::empty();
    let n_rows: usize = inp.repo.len();
    let mut i: usize = 0;
    while i < groups.len()
        invariant
            i <= groups@.len(),
            inp.wf(),
            n_rows == inp.repo@.len(),
            full == all_full(inp.commit_id@),
            full <==> index is None,
            index matches Some(ix) ==> ix.wf() && forall|g: GraphModel| #[trigger]
                graph_is(graph, g) ==> indexes(ix, g, prefix_nibbles as nat),
            forall|k: int|
                0 <= k < groups@.len() ==> (#[trigger] groups@[k]).rows@.len() > 0
                    && groups@[k].rows@ == inp.group(groups@[k].key()),
            forall|k: int, l: int|
                0 <= k < l < groups@.len() ==> groups@[k].key() != groups@[l].key(),
            order.no_duplicates(),
            out@.len() == order.len(),
            forall|k: int|
                0 <= k < order.len() ==> exists|l: int|
                    0 <= l < i && (#[trigger] groups@[l]).key() == #[trigger] order[k],
            forall|g: GraphModel| #[trigger]
                bidirectional_is(graph, g) ==> {
                    &&& forall|k: int|
                        0 <= k < i ==> (order.contains((#[trigger] groups@[k]).key())
                            <==> key_resolves(g, *inp, prefix_nibbles as nat, groups@[k].key()))
                    &&& forall|k: int|
                        0 <= k < out@.len() ==> rows_view((#[trigger] out@[k])@) == key_rows(
                            g,
                            *inp,
                            prefix_nibbles as nat,
                            order[k],
                        )
                },
        decreases groups@.len() - i,
    {
        let group = &groups[i];
        let ghost key = group.key();
        let ghost order0 = order;
        let ghost out0 = out@;
        proof {
            lemma_rows_with(*inp, key, n_rows as int);
            assert(!order.contains(key)) by {
                if order.contains(key) {
                    let k = choose|k: int| 0 <= k < order.len() && order[k] == key;
                    assert(order[k] == key);
                }
            }
        }
        let rows = resolve_group(
            graph,
            index,
            prefix_nibbles,
            group.repo.as_str(),
            group.commit_id.as_str(),
            &group.rows,
            inp,
        );
        assert forall|g: GraphModel| #[trigger] bidirectional_is(graph, g) implies {
            &&& rows is Some <==> key_resolves(g, *inp, prefix_nibbles as nat, key)
            &&& rows matches Some(v) ==> rows_view(v@) == key_rows(
                g,
                *inp,
                prefix_nibbles as nat,
                key,
            )
        } by {
            assert(graph_is(graph, g));
            let cands = candidates(g, index, prefix_nibbles as nat, key.1);
            assert(group_rev(g, key.0, cands) == key_rev(g, full, prefix_nibbles as nat, key)) by {
                if let Some(ix) = index {
                    assert(indexes(ix, g, prefix_nibbles as nat));
                    assert(ix.nodes(commit_key(key.1, prefix_nibbles as nat)) == rev_nodes(
                        g,
                        prefix_nibbles as nat,
                        commit_key(key.1, prefix_nibbles as nat),
                        0,
                        g.num_nodes as int,
                    ));
                }
            }
        }
        if let Some(v) = rows {
            out.push(v);
            proof {
                order = order.push(key);
            }
        }
        proof {
            assert forall|k: int| 0 <= k < order.len() implies exists|l: int|
                0 <= l < i + 1 && (#[trigger] groups@[l]).key() == #[trigger] order[k] by {
                if k < order0.len() {
                    assert(order[k] == order0[k]);
                    let l = choose|l: int|
                        0 <= l < i && (#[trigger] groups@[l]).key() == order0[k];
                    assert(groups@[l].key() == order[k]);
                } else {
                    assert(groups@[i as int].key() == order[k]);
                }
            }
            assert forall|g: GraphModel| #[trigger] bidirectional_is(graph, g) implies {
                &&& forall|k: int|
                    0 <= k < i + 1 ==> (order.contains((#[trigger] groups@[k]).key())
                        <==> key_resolves(g, *inp, prefix_nibbles as nat, groups@[k].key()))
                &&& forall|k: int|
                    0 <= k < out@.len() ==> rows_view((#[trigger] out@[k])@) == key_rows(
                        g,
                        *inp,
                        prefix_nibbles as nat,
                        order[k],
                    )
            } by {
                assert forall|k: int| 0 <= k < i + 1 implies (order.contains(
                    (#[trigger] groups@[k]).key(),
                ) <==> key_resolves(g, *inp, prefix_nibbles as nat, groups@[k].key())) by {
                    let other = groups@[k].key();
                    if order0.contains(other) {
                        let a = choose|a: int| 0 <= a < order0.len() && order0[a] == other;
                        assert(order[a] == other);
                    }
                    if order.contains(other) && k < i {
                        let a = choose|a: int| 0 <= a < order.len() && order[a] == other;
                        assert(groups@[k].key() != groups@[i as int].key());
                        assert(order0[a] == other);
                    }
                    if k == i && order.len() > order0.len() {
                        assert(order[order0.len() as int] == other);
                    }
                }
                assert forall|k: int| 0 <= k < out@.len() implies rows_view(
                    (#[trigger] out@[k])@,
                ) == key_rows(g, *inp, prefix_nibbles as nat, order[k]) by {
                    if k < out0.len() {
                        assert(out@[k] == out0[k]);
                        assert(order[k] == order0[k]);
                    }
                }
            }
        }
        i = i + 1;
    }
    proof {
        assert forall|g: GraphModel| #[trigger] bidirectional_is(graph, g) implies resolved_in(
            g,
            *inp,
            prefix_nibbles as nat,
            order,
            out@,
        ) by {
            assert forall|key: GroupKey| #[trigger] order.contains(key) <==> key_resolves(
                g,
                *inp,
                prefix_nibbles as nat,
                key,
            ) by {
                if order.contains(key) {
                    let k = choose|k: int| 0 <= k < order.len() && order[k] == key;
                    let l = choose|l: int|
                        0 <= l < groups@.len() && (#[trigger] groups@[l]).key() == order[k];
                    assert(groups@[l].key() == key);
                }
                if key_resolves(g, *inp, prefix_nibbles as nat, key) {
                    let l = choose|l: int|
                        0 <= l < groups@.len() && (#[trigger] groups@[l]).key() == key;
                    assert(groups@[l].key() == key);
                }
            }
        }
    }
    out
}

} // verus!
