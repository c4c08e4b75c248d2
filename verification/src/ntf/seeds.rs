//! What the walk of each row starts from: the root directory of its revision, and the ids of
//! the names on its path.

use vstd::prelude::*;

use crate::ntf::common::{Names, Seeds, FID_MISSING, ROOT_MISSING};
use crate::ntf::graph::{directories_within, graph_is, Graph, GraphModel};
use crate::ntf::maps::{value_or, NameIds, RootMemo, TripleKey, TripleRevs};
use crate::ntf::order::is_same_text;
use crate::ntf::provenance::{root_dir, root_dir_of_rev};
use crate::ntf::text::{
    bytes_view, component_bytes, full_rev_id, is_white, normalize_rev_id, path_components, to_chars,
    trim_by, trim_white,
};

verus! {

/// The root directory of the revision with the given SWHID.
pub open spec fn root_of_id(g: GraphModel, rid: Seq<char>) -> u64 {
    match (g.node_id)(rid) {
        Some(rev) => match root_dir(g, rev) {
            Some(d) => d as u64,
            None => ROOT_MISSING,
        },
        None => ROOT_MISSING,
    }
}

/// The memo holds roots as they are.
pub open spec fn memo_is(g: GraphModel, memo: Map<Seq<char>, u64>) -> bool {
    forall|rid: Seq<char>| #[trigger] memo.contains_key(rid) ==> memo[rid] == root_of_id(g, rid)
}

/// The root is missing, or it is a node below `bound`.
pub open spec fn root_below(root: u64, bound: nat) -> bool {
    root == ROOT_MISSING || (root < bound && root <= usize::MAX)
}

/// Every root in the memo is missing or below `bound`.
pub open spec fn memo_below(memo: Map<Seq<char>, u64>, bound: nat) -> bool {
    forall|rid: Seq<char>| #[trigger] memo.contains_key(rid) ==> root_below(memo[rid], bound)
}

/// Every root of the seeds is missing or below `bound`.
pub open spec fn roots_below(root: Seq<u64>, bound: nat) -> bool {
    forall|i: int| 0 <= i < root.len() ==> root_below(#[trigger] root[i], bound)
}

/// The root directory of a revision, given by its SWHID or by the bare hash. Each revision
/// is looked up in the graph once.
pub fn resolve_root<G: Graph>(graph: &G, rev_str: &str, memo: &mut RootMemo) -> (r: u64)
    requires
        forall|g: GraphModel| #[trigger] graph_is(graph, g) ==> memo_is(g, old(memo)@),
    ensures
        final(memo)@ == old(memo)@.insert(full_rev_id(rev_str@), r),
        forall|g: GraphModel| #[trigger]
            graph_is(graph, g) ==> r == root_of_id(g, full_rev_id(rev_str@)) && memo_is(
                g,
                final(memo)@,
            ),
        forall|b: nat| #[trigger]
            directories_within(graph, b) && memo_below(old(memo)@, b) ==> root_below(r, b)
                && memo_below(final(memo)@, b),
{
    let rid = normalize_rev_id(rev_str);
    let key: String = match rid {
        std::borrow::Cow::Borrowed(s) => s.to_owned(),
        std::borrow::Cow::Owned(s) => s,
    };
    if let Some(root) = memo.get(key.as_str()) {
        assert(memo@.insert(key@, root) =~= memo@);
        return root;
    }
    let root: u64 = match graph.node_id(key.as_str()) {
        Some(rev) => match root_dir_of_rev(graph, rev) {
            Some(d) => d as u64,
            None => ROOT_MISSING,
        },
        None => ROOT_MISSING,
    };
    memo.insert(key, root);
    root
}

/// Whether a character is a decimal digit.
pub open spec fn is_digit(c: char) -> bool {
    '0' <= c && c <= '9'
}

/// Whether all characters are decimal digits.
pub open spec fn all_digits(s: Seq<char>) -> bool {
    forall|i: int| 0 <= i < s.len() ==> is_digit(#[trigger] s[i])
}

/// The number that decimal digits stand for.
pub open spec fn digits_value(s: Seq<char>) -> nat
    decreases s.len(),
{
    if s.len() == 0 {
        0
    } else {
        digits_value(s.drop_last()) * 10 + (s.last() as nat - '0' as nat) as nat
    }
}

/// The number that digits stand for; none, where there is no digit or anything else, or
/// where the number does not fit.
pub open spec fn number_of(digits: Seq<char>) -> Option<u16> {
    if digits.len() > 0 && all_digits(digits) && digits_value(digits) <= u16::MAX {
        Some(digits_value(digits) as u16)
    } else {
        None
    }
}

/// The number that a text stands for: digits behind an optional plus sign, with white space
/// around them.
pub open spec fn bin_number(s: Seq<char>) -> Option<u16> {
    let trimmed = trim_by(s, is_white());
    number_of(
        if trimmed.len() > 0 && trimmed[0] == '+' {
            trimmed.drop_first()
        } else {
            trimmed
        },
    )
}

/// More digits make no smaller number.
proof fn lemma_digits_grow(s: Seq<char>, n: int)
    requires
        all_digits(s),
        0 <= n <= s.len(),
    ensures
        digits_value(s.take(n)) <= digits_value(s),
    decreases s.len() - n,
{
    if n == s.len() {
        assert(s.take(n) =~= s);
    } else {
        lemma_digits_grow(s, n + 1);
        assert(s.take(n + 1).drop_last() =~= s.take(n));
    }
}

/// The number that a text stands for.
pub fn parse_u16(s: &str) -> (r: Option<u16>)
    ensures
        r == bin_number(s@),
{
    let chars = to_chars(s);
    let trimmed = trim_white(chars.as_slice());
    let start: usize = if trimmed.len() > 0 && trimmed[0] == '+' {
        1
    } else {
        0
    };
    let ghost digits = trimmed@.skip(start as int);
    proof {
        if start == 0 {
            assert(digits =~= trimmed@);
        } else {
            assert(digits =~= trimmed@.drop_first());
        }
    }
    if start == trimmed.len() {
        return None;
    }
    let mut value: u32 = 0;
    let mut i: usize = start;
    while i < trimmed.len()
        invariant
            start <= i <= trimmed@.len(),
            digits == trimmed@.skip(start as int),
            bin_number(s@) == number_of(digits),
            forall|j: int| 0 <= j < i - start ==> is_digit(#[trigger] digits[j]),
            value == digits_value(digits.take(i - start)),
            value <= u16::MAX,
        decreases trimmed@.len() - i,
    {
        let c: char = trimmed[i];
        assert(digits[i - start] == c);
        if !('0' <= c && c <= '9') {
            assert(!all_digits(digits));
            return None;
        }
        let ghost next = digits.take(i - start + 1);
        assert(next.drop_last() =~= digits.take(i - start));
        value = value * 10 + (c as u32 - '0' as u32);
        if value > 65535 {
            proof {
                if all_digits(digits) {
                    lemma_digits_grow(digits, i - start + 1);
                }
            }
            return None;
        }
        i = i + 1;
    }
    assert(digits.take(i - start) =~= digits);
    Some(value as u16)
}

/// Whether a bin is one of those that are expected.
pub open spec fn is_expected_bin(v: u16) -> bool {
    48 <= v <= 127
}

/// The bin of a row: 0, where the text stands for no number. Counts the numbers that are not
/// expected, and the texts that stand for none; the counters wrap.
pub fn parse_bin(s: &str, strays: &mut u64, bad: &mut u64) -> (r: u16)
    ensures
        r == bin_of(s@),
        *final(strays) == (if bin_number(s@) is Some && !is_expected_bin(bin_of(s@)) {
            old(strays).wrapping_add(1)
        } else {
            *old(strays)
        }),
        *final(bad) == (if bin_number(s@) is None {
            old(bad).wrapping_add(1)
        } else {
            *old(bad)
        }),
{
    match parse_u16(s) {
        Some(v) => {
            if !(48 <= v && v <= 127) {
                *strays = strays.wrapping_add(1);
            }
            v
        },
        None => {
            *bad = bad.wrapping_add(1);
            0
        },
    }
}

/// The bin of a row.
pub open spec fn bin_of(s: Seq<char>) -> u16 {
    match bin_number(s) {
        Some(v) => v,
        None => 0,
    }
}

/// The ids of names; [`FID_MISSING`] for a name that is in no label table.
pub open spec fn fids_of(ids: Map<Seq<u8>, u64>, names: Seq<Seq<u8>>) -> Seq<u64> {
    names.map_values(|c: Seq<u8>| value_or(ids, c, FID_MISSING))
}

/// The ids of the components of a path.
pub fn path_ids(ids: &NameIds, rel_path: &str) -> (r: Vec<u64>)
    ensures
        r@ == fids_of(ids@, component_bytes(rel_path@)),
{
    let comps = path_components(rel_path);
    let mut out: Vec<u64> = Vec::new();
    let mut k: usize = 0;
    while k < comps.len()
        invariant
            k <= comps@.len(),
            out@.len() == k,
            forall|j: int|
                0 <= j < k ==> #[trigger] out@[j] == value_or(ids@, comps@[j]@, FID_MISSING),
        decreases comps@.len() - k,
    {
        let fid: u64 = match ids.get(&comps[k]) {
            Some(id) => id,
            None => FID_MISSING,
        };
        out.push(fid);
        k = k + 1;
    }
    assert(out@ =~= fids_of(ids@, component_bytes(rel_path@))) by {
        assert(bytes_view(comps@) == component_bytes(rel_path@));
        assert forall|j: int| 0 <= j < comps@.len() implies component_bytes(rel_path@)[j]
            == #[trigger] comps@[j]@ by {
            assert(bytes_view(comps@)[j] == comps@[j]@);
        }
        assert(component_bytes(rel_path@).len() == comps@.len());
    }
    out
}

/// What the walk of one row starts from.
pub struct SeedRow {
    pub root: u64,
    pub path: Seq<u64>,
    pub bin: u16,
}

/// The seed of a row.
pub open spec fn seed_row(
    g: GraphModel,
    ids: Map<Seq<u8>, u64>,
    rev: Seq<char>,
    rel_path: Seq<char>,
    bin: Seq<char>,
) -> SeedRow {
    SeedRow {
        root: root_of_id(g, full_rev_id(rev)),
        path: fids_of(ids, component_bytes(rel_path)),
        bin: bin_of(bin),
    }
}

/// The seeds, row by row.
pub open spec fn seed_rows(seeds: Seeds) -> Seq<SeedRow> {
    Seq::new(
        seeds.n_rows as nat,
        |i: int| SeedRow { root: seeds.root@[i], path: seeds.path(i), bin: seeds.bin@[i] },
    )
}

/// Seeds without rows.
pub fn empty_seeds() -> (r: Seeds)
    ensures
        r.wf(),
        r.n_rows == 0,
        r.root@ == Seq::<u64>::empty(),
        seed_rows(r) == Seq::<SeedRow>::empty(),
{
    let r = Seeds {
        n_rows: 0,
        root: Vec::new(),
        path_off: vec![0u64],
        path_fids: Vec::new(),
        bin: Vec::new(),
    };
    assert(seed_rows(r) =~= Seq::<SeedRow>::empty());
    r
}

/// Appends a row.
pub fn push_seed(seeds: &mut Seeds, root: u64, path: &Vec<u64>, bin: u16)
    requires
        old(seeds).wf(),
    ensures
        final(seeds).wf(),
        final(seeds).root@ == old(seeds).root@.push(root),
        final(seeds).n_rows == old(seeds).n_rows + 1,
        seed_rows(*final(seeds)) == seed_rows(*old(seeds)).push(
            (SeedRow { root, path: path@, bin }),
        ),
{
    let ghost before = *seeds;
    let ghost n = seeds.n_rows as int;
    seeds.root.push(root);
    seeds.bin.push(bin);
    seeds.path_fids.extend_from_slice(path.as_slice());
    let end: usize = seeds.path_fids.len();
    seeds.path_off.push(end as u64);
    let n_rows: usize = seeds.root.len();
    seeds.n_rows = n_rows;
    proof {
        assert(seeds.path_fids@ =~= before.path_fids@ + path@);
        assert(seeds.path(n) =~= path@);
        assert forall|i: int| 0 <= i < n implies seeds.path(i) == #[trigger] before.path(i) by {
            assert(before.path_off@[i] <= before.path_off@[i + 1]);
            assert(before.path_off@[i + 1] <= before.path_off@[n]);
            assert(seeds.path(i) =~= before.path(i));
        }
        let after = seed_rows(before).push(SeedRow { root, path: path@, bin });
        assert forall|i: int| 0 <= i < after.len() implies seed_rows(*seeds)[i] == after[i] by {
            if i < n {
                assert(seeds.path(i) == before.path(i));
            }
        }
        assert(seed_rows(*seeds) =~= after);
    }
}

/// What was noticed while the seeds were made; the counters wrap.
pub struct SeedStats {
    /// The rows whose repository, commit and path came before in their batch, and first with
    /// another revision.
    pub conflicts: u64,
    /// The bins that are not expected.
    pub strays: u64,
    /// The bins that stand for no number.
    pub bad: u64,
}

/// The columns of one batch of candidates.
pub struct SeedBatch {
    pub repo: Vec<String>,
    pub commit_id: Vec<String>,
    pub rel_path: Vec<String>,
    pub rev: Vec<String>,
    pub bin: Vec<String>,
}

impl SeedBatch {
    /// The columns are equally long.
    pub open spec fn wf(&self) -> bool {
        &&& self.repo@.len() == self.rev@.len()
        &&& self.commit_id@.len() == self.rev@.len()
        &&& self.rel_path@.len() == self.rev@.len()
        &&& self.bin@.len() == self.rev@.len()
    }

    /// The repository, the commit and the path of row `i`.
    pub open spec fn key(&self, i: int) -> TripleKey {
        (self.repo@[i]@, self.commit_id@[i]@, self.rel_path@[i]@)
    }

    /// The revisions with which the repositories, commits and paths of the first `n` rows
    /// came first.
    pub open spec fn first_revs(&self, n: int) -> Map<TripleKey, Seq<char>>
        decreases n,
    {
        if n <= 0 {
            Map::empty()
        } else {
            let before = self.first_revs(n - 1);
            before.insert(self.key(n - 1), value_or(before, self.key(n - 1), self.rev@[n - 1]@))
        }
    }

    /// The number of rows among the first `n` whose repository, commit and path came first
    /// with another revision.
    pub open spec fn conflicts(&self, n: int) -> nat
        decreases n,
    {
        if n <= 0 {
            0
        } else {
            let rev = self.rev@[n - 1]@;
            self.conflicts(n - 1) + if value_or(self.first_revs(n - 1), self.key(n - 1), rev)
                != rev {
                1nat
            } else {
                0nat
            }
        }
    }

    /// The SWHIDs of the revisions of the first `n` rows.
    pub open spec fn rev_ids(&self, n: int) -> Set<Seq<char>> {
        self.rev@.take(n).map_values(|rev: String| full_rev_id(rev@)).to_set()
    }

    /// The seeds of the rows.
    pub open spec fn rows(&self, g: GraphModel, ids: Map<Seq<u8>, u64>) -> Seq<SeedRow> {
        Seq::new(
            self.rev@.len(),
            |i: int| seed_row(g, ids, self.rev@[i]@, self.rel_path@[i]@, self.bin@[i]@),
        )
    }
}

impl SeedBatch {
    proof fn lemma_rev_ids(&self, i: int)
        requires
            0 <= i < self.rev@.len(),
        ensures
            self.rev_ids(i + 1) == self.rev_ids(i).insert(full_rev_id(self.rev@[i]@)),
    {
        let id = |rev: String| full_rev_id(rev@);
        let before = self.rev@.take(i).map_values(id);
        let after = self.rev@.take(i + 1).map_values(id);
        assert(after =~= before.push(full_rev_id(self.rev@[i]@)));
        assert forall|s: Seq<char>| #[trigger] after.contains(s) <==> before.contains(s) || s
            == full_rev_id(self.rev@[i]@) by {
            if before.contains(s) {
                let k = choose|k: int| 0 <= k < before.len() && before[k] == s;
                assert(after[k] == s);
            }
            assert(after[i] == full_rev_id(self.rev@[i]@));
        }
        assert(self.rev_ids(i + 1) =~= self.rev_ids(i).insert(full_rev_id(self.rev@[i]@)));
    }
}

/// The number of bins among the first `n` that are not expected.
pub open spec fn strays_below(bin: Seq<String>, n: int) -> nat
    decreases n,
{
    if n <= 0 {
        0
    } else {
        strays_below(bin, n - 1) + if bin_number(bin[n - 1]@) is Some && !is_expected_bin(
            bin_of(bin[n - 1]@),
        ) {
            1nat
        } else {
            0nat
        }
    }
}

/// The number of bins among the first `n` that stand for no number.
pub open spec fn bad_below(bin: Seq<String>, n: int) -> nat
    decreases n,
{
    if n <= 0 {
        0
    } else {
        bad_below(bin, n - 1) + if bin_number(bin[n - 1]@) is None {
            1nat
        } else {
            0nat
        }
    }
}

/// Counts the rows whose repository, commit and path came first with another revision.
pub fn count_conflicts(batch: &SeedBatch) -> (r: usize)
    requires
        batch.wf(),
    ensures
        r == batch.conflicts(batch.rev@.len() as int),
{
    let mut seen = TripleRevs::new();
    let mut count: usize = 0;
    let n: usize = batch.rev.len();
    let mut i: usize = 0;
    while i < n
        invariant
            i <= n == batch.rev@.len(),
            batch.wf(),
            seen@ == batch.first_revs(i as int),
            count == batch.conflicts(i as int),
            count <= i,
        decreases n - i,
    {
        let rev = batch.rev[i].as_str();
        let first = seen.first_rev(
            batch.repo[i].as_str(),
            batch.commit_id[i].as_str(),
            batch.rel_path[i].as_str(),
            rev,
        );
        if !is_same_text(first.as_str(), rev) {
            count = count + 1;
        }
        i = i + 1;
    }
    count
}

/// The number of roots that are missing among the first `n`.
pub open spec fn missing_below(root: Seq<u64>, n: int) -> nat
    decreases n,
{
    if n <= 0 {
        0
    } else {
        missing_below(root, n - 1) + if root[n - 1] == ROOT_MISSING {
            1nat
        } else {
            0nat
        }
    }
}

/// Counts the rows without a root.
pub fn count_missing_roots(seeds: &Seeds) -> (r: usize)
    ensures
        r == missing_below(seeds.root@, seeds.root@.len() as int),
{
    let mut count: usize = 0;
    let mut i: usize = 0;
    while i < seeds.root.len()
        invariant
            i <= seeds.root@.len(),
            count == missing_below(seeds.root@, i as int),
            count <= i,
        decreases seeds.root@.len() - i,
    {
        if seeds.root[i] == ROOT_MISSING {
            count = count + 1;
        }
        i = i + 1;
    }
    count
}

/// Appends the seeds of one batch of candidates, in their order.
pub fn append_seeds<G: Graph>(
    graph: &G,
    names: &Names,
    batch: &SeedBatch,
    memo: &mut RootMemo,
    seeds: &mut Seeds,
    stats: &mut SeedStats,
)
    requires
        batch.wf(),
        old(seeds).wf(),
        forall|g: GraphModel| #[trigger] graph_is(graph, g) ==> memo_is(g, old(memo)@),
    ensures
        final(seeds).wf(),
        final(seeds).n_rows == old(seeds).n_rows + batch.rev@.len(),
        final(memo)@.dom() == old(memo)@.dom().union(batch.rev_ids(batch.rev@.len() as int)),
        forall|g: GraphModel| #[trigger]
            graph_is(graph, g) ==> seed_rows(*final(seeds)) == seed_rows(*old(seeds)) + batch.rows(
                g,
                names.component_fid@,
            ) && memo_is(g, final(memo)@),
        forall|b: nat| #[trigger]
            directories_within(graph, b) && memo_below(old(memo)@, b) && roots_below(
                old(seeds).root@,
                b,
            ) ==> memo_below(final(memo)@, b) && roots_below(final(seeds).root@, b),
        final(stats).conflicts == (old(stats).conflicts + batch.conflicts(
            batch.rev@.len() as int,
        )) % 0x1_0000_0000_0000_0000,
        final(stats).strays == (old(stats).strays + strays_below(
            batch.bin@,
            batch.bin@.len() as int,
        )) % 0x1_0000_0000_0000_0000,
        final(stats).bad == (old(stats).bad + bad_below(batch.bin@, batch.bin@.len() as int))
            % 0x1_0000_0000_0000_0000,
{
    let ghost before = seed_rows(*seeds);
    let conflicts: usize = count_conflicts(batch);
    stats.conflicts = stats.conflicts.wrapping_add(conflicts as u64);
    let n: usize = batch.rev.len();
    let mut i: usize = 0;
    assert forall|g: GraphModel| #[trigger] graph_is(graph, g) implies seed_rows(*seeds) == before
        + batch.rows(g, names.component_fid@).take(0) by {
        assert(seed_rows(*seeds) =~= before + batch.rows(g, names.component_fid@).take(0));
    }
    assert(batch.rev_ids(0) =~= Set::<Seq<char>>::empty());
    assert(memo@.dom() =~= old(memo)@.dom().union(batch.rev_ids(0)));
    while i < n
        invariant
            i <= n == batch.rev@.len(),
            batch.wf(),
            seeds.wf(),
            seeds.n_rows == old(seeds).n_rows + i,
            memo@.dom() == old(memo)@.dom().union(batch.rev_ids(i as int)),
            forall|g: GraphModel| #[trigger]
                graph_is(graph, g) ==> seed_rows(*seeds) == before + batch.rows(g, names.component_fid@).take(
                    i as int,
                ) && memo_is(g, memo@),
            forall|b: nat| #[trigger]
                directories_within(graph, b) && memo_below(old(memo)@, b) && roots_below(
                    old(seeds).root@,
                    b,
                ) ==> memo_below(memo@, b) && roots_below(seeds.root@, b),
            stats.conflicts == (old(stats).conflicts + batch.conflicts(n as int))
                % 0x1_0000_0000_0000_0000,
            stats.strays == (old(stats).strays + strays_below(batch.bin@, i as int))
                % 0x1_0000_0000_0000_0000,
            stats.bad == (old(stats).bad + bad_below(batch.bin@, i as int))
                % 0x1_0000_0000_0000_0000,
        decreases n - i,
    {
        let ghost now = seed_rows(*seeds);
        proof {
            batch.lemma_rev_ids(i as int);
        }
        let root: u64 = resolve_root(graph, batch.rev[i].as_str(), memo);
        let path = path_ids(&names.component_fid, batch.rel_path[i].as_str());
        let bin: u16 = parse_bin(batch.bin[i].as_str(), &mut stats.strays, &mut stats.bad);
        push_seed(seeds, root, &path, bin);
        assert forall|g: GraphModel| #[trigger] graph_is(graph, g) implies seed_rows(*seeds)
            == before + batch.rows(g, names.component_fid@).take(i + 1) by {
            let rows = batch.rows(g, names.component_fid@);
            assert(now == before + rows.take(i as int));
            assert(rows.take(i + 1) =~= rows.take(i as int).push(rows[i as int]));
            assert(seed_rows(*seeds) =~= before + rows.take(i + 1));
        }
        i = i + 1;
    }
    assert forall|g: GraphModel| #[trigger] graph_is(graph, g) implies seed_rows(*seeds) == before
        + batch.rows(g, names.component_fid@) by {
        let rows = batch.rows(g, names.component_fid@);
        assert(rows.take(n as int) =~= rows);
    }
}

/// The seeds of all rows of one batch.
pub fn build_seeds<G: Graph>(graph: &G, names: &Names, batch: &SeedBatch) -> (r: (
    Seeds,
    SeedStats,
))
    requires
        batch.wf(),
    ensures
        r.0.wf(),
        r.0.n_rows == batch.rev@.len(),
        forall|g: GraphModel| #[trigger]
            graph_is(graph, g) ==> seed_rows(r.0) == batch.rows(g, names.component_fid@),
        forall|b: nat| #[trigger] directories_within(graph, b) ==> roots_below(r.0.root@, b),
        r.1.conflicts == batch.conflicts(batch.rev@.len() as int) % 0x1_0000_0000_0000_0000,
        r.1.strays == strays_below(batch.bin@, batch.bin@.len() as int) % 0x1_0000_0000_0000_0000,
        r.1.bad == bad_below(batch.bin@, batch.bin@.len() as int) % 0x1_0000_0000_0000_0000,
{
    let mut memo = RootMemo::new();
    let mut seeds = empty_seeds();
    let mut stats = SeedStats { conflicts: 0, strays: 0, bad: 0 };
    append_seeds(graph, names, batch, &mut memo, &mut seeds, &mut stats);
    assert forall|g: GraphModel| #[trigger] graph_is(graph, g) implies seed_rows(seeds)
        == batch.rows(g, names.component_fid@) by {
        let rows = batch.rows(g, names.component_fid@);
        assert(Seq::<SeedRow>::empty() + rows =~= rows);
    }
    (seeds, stats)
}

} // verus!
