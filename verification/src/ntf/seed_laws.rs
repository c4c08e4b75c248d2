//! What the names, the seeds and the columns are, in terms of the label table, the texts of the
//! candidates and the names of the columns.

use vstd::prelude::*;

use crate::ntf::bins::{decimal, padded, OUTPUT_BATCH_SIZE};
use crate::ntf::cands::CANDS_CHUNK;
use crate::ntf::columns::{
    input_chosen, input_leaves, input_missing, last_below, last_named, output_leaves,
    output_missing, rank, seed_leaves, seed_missing, MissingColumn,
};
use crate::ntf::common::{
    DirMap, Seeds, FID_MISSING, N_LABELS, N_NODES, ROOT_MISSING, TY_CONTENT, TY_DIRECTORY,
    TY_REVISION,
};
use crate::ntf::counting::{how_many, lemma_how_many};
use crate::ntf::graph::{GraphModel, NodeType};
use crate::ntf::hydrate::{DEFAULT_K, PREFETCH_CHUNK, PREFETCH_WINDOW, SEQ_THRESHOLD};
use crate::ntf::names::{
    all_components, ids_below, matches_in, requested_below, LABEL_CHUNK,
};
use crate::ntf::prefix::NUM_SHARDS;
use crate::ntf::provenance::root_dir;
use crate::ntf::reach::{is_reached, reach, reached_in};
use crate::ntf::seeds::{
    all_digits, bad_below, bin_number, bin_of, digits_value, fids_of, is_digit, is_expected_bin,
    missing_below, root_of_id, seed_row, seed_rows, strays_below, SeedBatch, SeedRow,
};
use crate::ntf::text::{component_bytes, full_rev_id, is_white, white_space};
use crate::ntf::text_laws::lemma_cut_around;
use crate::ntf::verify::MAX_EXAMPLES;

verus! {

/// The numbers that the library is built on.
pub proof fn law_constants()
    ensures
        N_NODES == 49_903_891_086,
        N_LABELS == 6_191_838_569,
        FID_MISSING == 0xffff_ffff_ffff_ffff,
        ROOT_MISSING == 0xffff_ffff_ffff_ffff,
        TY_CONTENT == 0,
        TY_DIRECTORY == 1,
        TY_REVISION == 4,
        SEQ_THRESHOLD == 2_400_000,
        OUTPUT_BATCH_SIZE == 100_000,
        CANDS_CHUNK == 1_000_000,
        MAX_EXAMPLES == 10,
        NUM_SHARDS == 256,
        LABEL_CHUNK == 1_048_576,
        DEFAULT_K == 16,
        PREFETCH_CHUNK == 16 * 1_048_576,
        PREFETCH_WINDOW == 256 * 1_048_576,
{
}

/// The components that are collected are those of the paths that are there.
pub proof fn law_all_components(paths: Seq<Option<String>>, b: Seq<u8>)
    ensures
        all_components(paths).contains(b) <==> exists|i: int, k: int|
            0 <= i < paths.len() && (#[trigger] paths[i] matches Some(p) && 0 <= k
                < component_bytes(p@).len() && #[trigger] component_bytes(paths[i]->0@)[k] == b),
{
    if all_components(paths).contains(b) {
        let i = choose|i: int|
            0 <= i < paths.len() && #[trigger] paths[i] is Some && component_bytes(
                paths[i]->0@,
            ).contains(b);
        let bytes = component_bytes(paths[i]->0@);
        let k = choose|k: int| 0 <= k < bytes.len() && bytes[k] == b;
        assert(component_bytes(paths[i]->0@)[k] == b);
    }
    if exists|i: int, k: int|
        0 <= i < paths.len() && (#[trigger] paths[i] matches Some(p) && 0 <= k < component_bytes(
            p@,
        ).len() && #[trigger] component_bytes(paths[i]->0@)[k] == b) {
        let (i, k) = choose|i: int, k: int|
            0 <= i < paths.len() && (#[trigger] paths[i] matches Some(p) && 0 <= k
                < component_bytes(p@).len() && #[trigger] component_bytes(paths[i]->0@)[k] == b);
        assert(component_bytes(paths[i]->0@).contains(b));
    }
}

/// A wanted name has an id just where the label table has it, and then the greatest id that the
/// table has for it.
pub proof fn law_greatest_id(g: GraphModel, distinct: Set<Seq<u8>>, n: int, name: Seq<u8>)
    requires
        0 <= n <= u64::MAX,
    ensures
        ids_below(g, distinct, n).contains_key(name) <==> distinct.contains(name) && exists|id: u64|
            id < n && #[trigger] (g.label_name)(id) == name,
        ids_below(g, distinct, n).contains_key(name) ==> {
            let found = ids_below(g, distinct, n)[name];
            &&& found < n
            &&& (g.label_name)(found) == name
            &&& forall|id: u64| id < n && #[trigger] (g.label_name)(id) == name ==> id <= found
        },
    decreases n,
{
    if n > 0 {
        law_greatest_id(g, distinct, n - 1, name);
        let last = (n - 1) as u64;
        if distinct.contains(name) && (g.label_name)(last) == name {
            assert(ids_below(g, distinct, n)[name] == last);
        } else {
            if ids_below(g, distinct, n).contains_key(name) {
                let id = ids_below(g, distinct, n - 1)[name];
                assert((g.label_name)(id) == name);
            }
            if exists|id: u64| id < n && #[trigger] (g.label_name)(id) == name {
                let id = choose|id: u64| id < n && #[trigger] (g.label_name)(id) == name;
                if distinct.contains(name) {
                    assert(id != last);
                }
            }
        }
    }
}

/// An id is requested just where its name is wanted.
pub proof fn law_requested(g: GraphModel, distinct: Set<Seq<u8>>, n: int, id: u64)
    requires
        0 <= n <= u64::MAX,
    ensures
        requested_below(g, distinct, n).contains(id as int) <==> id < n && distinct.contains(
            (g.label_name)(id),
        ),
{
}

/// What is found in a part of the label table: every id with a wanted name, with that name, in
/// ascending order.
pub proof fn law_matches(g: GraphModel, distinct: Set<Seq<u8>>, lo: int, hi: int)
    requires
        0 <= lo <= hi <= u64::MAX,
    ensures
        forall|k: int|
            0 <= k < matches_in(g, distinct, lo, hi).len() ==> {
                let found = #[trigger] matches_in(g, distinct, lo, hi)[k];
                &&& lo <= found.1 < hi
                &&& found.0 == (g.label_name)(found.1)
                &&& distinct.contains(found.0)
            },
        forall|j: int, k: int|
            0 <= j < k < matches_in(g, distinct, lo, hi).len() ==> matches_in(
                g,
                distinct,
                lo,
                hi,
            )[j].1 < matches_in(g, distinct, lo, hi)[k].1,
        forall|id: u64|
            lo <= id < hi && distinct.contains(#[trigger] (g.label_name)(id)) ==> matches_in(
                g,
                distinct,
                lo,
                hi,
            ).contains(((g.label_name)(id), id)),
    decreases hi - lo,
{
    if lo < hi {
        law_matches(g, distinct, lo, hi - 1);
        let before = matches_in(g, distinct, lo, hi - 1);
        let all = matches_in(g, distinct, lo, hi);
        let last = (hi - 1) as u64;
        assert forall|id: u64|
            lo <= id < hi && distinct.contains(#[trigger] (g.label_name)(id)) implies all.contains(
            ((g.label_name)(id), id),
        ) by {
            let pair = ((g.label_name)(id), id);
            if id == last {
                assert(all[before.len() as int] == pair);
            } else {
                assert(before.contains(pair));
                let k = choose|k: int| 0 <= k < before.len() && before[k] == pair;
                assert(all[k] == pair);
            }
        }
    }
}

/// The root of a revision's SWHID: that of the node that the graph has for it; missing, where it
/// has none or the node has no root directory.
pub proof fn law_root_of_id(g: GraphModel, rid: Seq<char>)
    ensures
        (g.node_id)(rid) is None ==> root_of_id(g, rid) == u64::MAX,
        (g.node_id)(rid) matches Some(r) ==> root_of_id(g, rid) == (match root_dir(g, r) {
            Some(d) => d as u64,
            None => u64::MAX,
        }),
{
}

/// The seed of a candidate: the root of its revision, the ids of the names on its path, and its
/// bin.
pub proof fn law_seed_row(
    g: GraphModel,
    ids: Map<Seq<u8>, u64>,
    rev: Seq<char>,
    rel_path: Seq<char>,
    bin: Seq<char>,
    i: int,
)
    requires
        0 <= i < component_bytes(rel_path).len(),
    ensures
        seed_row(g, ids, rev, rel_path, bin).root == root_of_id(g, full_rev_id(rev)),
        seed_row(g, ids, rev, rel_path, bin).path.len() == component_bytes(rel_path).len(),
        seed_row(g, ids, rev, rel_path, bin).path[i] == (if ids.contains_key(
            component_bytes(rel_path)[i],
        ) {
            ids[component_bytes(rel_path)[i]]
        } else {
            u64::MAX
        }),
        seed_row(g, ids, rev, rel_path, bin).bin == bin_of(bin),
{
}

/// The ids of names, one by one; a name that has none is missing.
pub proof fn law_fids(ids: Map<Seq<u8>, u64>, names: Seq<Seq<u8>>, i: int)
    requires
        0 <= i < names.len(),
    ensures
        fids_of(ids, names).len() == names.len(),
        fids_of(ids, names)[i] == (if ids.contains_key(names[i]) {
            ids[names[i]]
        } else {
            u64::MAX
        }),
{
}

/// The seeds of a batch and the rows of seeds, one by one.
pub proof fn law_seed_rows(
    g: GraphModel,
    ids: Map<Seq<u8>, u64>,
    batch: SeedBatch,
    seeds: Seeds,
    i: int,
)
    ensures
        batch.rows(g, ids).len() == batch.rev@.len(),
        0 <= i < batch.rev@.len() ==> batch.rows(g, ids)[i] == seed_row(
            g,
            ids,
            batch.rev@[i]@,
            batch.rel_path@[i]@,
            batch.bin@[i]@,
        ),
        seed_rows(seeds).len() == seeds.n_rows,
        0 <= i < seeds.n_rows ==> seed_rows(seeds)[i] == (SeedRow {
            root: seeds.root@[i],
            path: seeds.path(i),
            bin: seeds.bin@[i],
        }),
{
}

/// The number of decimal digits: one more digit makes it ten times as much and that digit more.
pub proof fn law_digits_value(digits: Seq<char>, c: char)
    requires
        '0' <= c && c <= '9',
    ensures
        digits_value(Seq::empty()) == 0,
        digits_value(digits.push(c)) == 10 * digits_value(digits) + (c as u32 - '0' as u32),
{
    assert(digits.push(c).drop_last() =~= digits);
}

/// The number that the text of a bin stands for: white space on either side and one plus sign are
/// left out; what is left is one or more decimal digits, for a number up to 65535, or it stands
/// for none.
pub proof fn law_bin_number_parts(
    white: Seq<char>,
    plus: bool,
    rest: Seq<char>,
    behind: Seq<char>,
)
    requires
        forall|i: int| 0 <= i < white.len() ==> white_space(#[trigger] white[i]),
        forall|i: int| 0 <= i < behind.len() ==> white_space(#[trigger] behind[i]),
        rest.len() > 0 ==> !white_space(rest.last()),
        rest.len() > 0 && !plus ==> !white_space(rest[0]) && rest[0] != '+',
    ensures
        bin_number(
            white + (if plus {
                "+"@
            } else {
                Seq::empty()
            }) + rest + behind,
        ) == (if rest.len() > 0 && (forall|i: int|
            0 <= i < rest.len() ==> '0' <= #[trigger] rest[i] && rest[i] <= '9') && digits_value(
            rest,
        ) <= 65535 {
            Some(digits_value(rest) as u16)
        } else {
            None
        }),
{
    reveal_strlit("+");
    let sign = if plus {
        "+"@
    } else {
        Seq::empty()
    };
    let core = sign + rest;
    let all = white + sign + rest + behind;
    assert(all =~= white + core + behind);
    if core.len() > 0 {
        if plus {
            assert(core[0] == '+');
        } else {
            assert(core[0] == rest[0]);
        }
        if rest.len() > 0 {
            assert(core.last() == rest.last());
        } else {
            assert(core.last() == '+');
        }
    }
    lemma_cut_around(white, core, behind, is_white());
    if plus {
        assert(core.drop_first() =~= rest);
    } else {
        assert(core =~= rest);
    }
    assert forall|i: int| 0 <= i < rest.len() implies is_digit(#[trigger] rest[i]) == ('0'
        <= rest[i] && rest[i] <= '9') by {}
    if forall|i: int| 0 <= i < rest.len() ==> '0' <= #[trigger] rest[i] && rest[i] <= '9' {
        assert forall|i: int| 0 <= i < rest.len() implies is_digit(#[trigger] rest[i]) by {}
    }
    if all_digits(rest) {
        assert forall|i: int| 0 <= i < rest.len() implies '0' <= #[trigger] rest[i] && rest[i]
            <= '9' by {
            assert(is_digit(rest[i]));
        }
    }
}

/// The bin of a row is the number that its text stands for, 0 where it stands for none; those from
/// 48 to 127 are expected.
pub proof fn law_bin(s: Seq<char>, v: u16)
    ensures
        bin_number(s) == Some(v) ==> bin_of(s) == v,
        bin_number(s) is None ==> bin_of(s) == 0,
        is_expected_bin(v) <==> 48 <= v && v <= 127,
{
}

/// The decimal digits of a number stand for it, without a zero in front of another digit, and the
/// number is read back from them.
pub proof fn law_decimal(n: nat)
    ensures
        digits_value(decimal(n)) == n,
        decimal(n).len() > 0,
        forall|i: int| 0 <= i < decimal(n).len() ==> '0' <= #[trigger] decimal(n)[i] && decimal(n)[i]
            <= '9',
        decimal(n).len() > 1 ==> decimal(n)[0] != '0',
        n <= u16::MAX ==> bin_number(decimal(n)) == Some(n as u16),
{
    lemma_decimal(n);
    let d = decimal(n);
    let none = Seq::<char>::empty();
    assert(d[d.len() - 1] == d.last());
    law_bin_number_parts(none, false, d, none);
    assert(none + none + d + none =~= d);
}

proof fn lemma_decimal(n: nat)
    ensures
        digits_value(decimal(n)) == n,
        decimal(n).len() > 0,
        forall|i: int| 0 <= i < decimal(n).len() ==> '0' <= #[trigger] decimal(n)[i] && decimal(n)[i]
            <= '9',
        decimal(n).len() > 1 ==> decimal(n)[0] != '0',
        n > 0 ==> decimal(n)[0] != '0',
    decreases n,
{
    let d = decimal(n);
    if n < 10 {
        let c = (0x30 + n) as char;
        assert(d.drop_last() =~= Seq::<char>::empty());
        assert(d.last() == c);
        assert(digits_value(d.drop_last()) == 0);
    } else {
        lemma_decimal(n / 10);
        let c = (0x30 + n % 10) as char;
        assert(d.drop_last() =~= decimal(n / 10));
        assert(d.last() == c);
        assert(n == 10 * (n / 10) + n % 10);
    }
}

/// Padding puts zeros in front until the text has the given length, and none where it has it.
pub proof fn law_padded(s: Seq<char>, len: nat)
    ensures
        s.len() >= len ==> padded(s, len) == s,
        s.len() < len ==> padded(s, len).len() == len && padded(s, len).skip(len - s.len()) == s
            && forall|i: int| 0 <= i < len - s.len() ==> #[trigger] padded(s, len)[i] == '0',
{
    if s.len() < len {
        assert(padded(s, len).skip(len - s.len()) =~= s);
    }
}

/// Row `i` has the repository, the commit and the path of row `j`.
pub open spec fn same_row(batch: SeedBatch, i: int, j: int) -> bool {
    &&& batch.repo@[i]@ == batch.repo@[j]@
    &&& batch.commit_id@[i]@ == batch.commit_id@[j]@
    &&& batch.rel_path@[i]@ == batch.rel_path@[j]@
}

/// Row `j` is the first with the repository, the commit and the path of row `i`.
pub open spec fn is_first_of(batch: SeedBatch, i: int, j: int) -> bool {
    &&& 0 <= j <= i
    &&& same_row(batch, i, j)
    &&& forall|k: int| 0 <= k < j ==> !#[trigger] same_row(batch, i, k)
}

/// The repository, the commit and the path of a row came first with another revision.
pub open spec fn row_conflicts(batch: SeedBatch) -> spec_fn(int) -> bool {
    |i: int|
        exists|j: int| #[trigger]
            is_first_of(batch, i, j) && batch.rev@[j]@ != batch.rev@[i]@
}

/// The conflicts are the rows whose repository, commit and path came first with another revision.
pub proof fn law_conflicts(batch: SeedBatch, n: int)
    requires
        batch.wf(),
        0 <= n <= batch.rev@.len(),
    ensures
        batch.conflicts(n) == how_many(row_conflicts(batch), n),
    decreases n,
{
    lemma_how_many(row_conflicts(batch), n);
    if n > 0 {
        law_conflicts(batch, n - 1);
        let i = n - 1;
        let key = batch.key(i);
        let rev = batch.rev@[i]@;
        let before = batch.first_revs(i);
        lemma_first_revs(batch, i, i);
        if before.contains_key(key) {
            let j = choose|j: int| #[trigger] is_first_of(batch, i, j) && j < i;
            assert(before[key] == batch.rev@[j]@);
            if row_conflicts(batch)(i) {
                let k = choose|k: int| #[trigger]
                    is_first_of(batch, i, k) && batch.rev@[k]@ != batch.rev@[i]@;
                lemma_one_first(batch, i, j, k);
            }
        } else if row_conflicts(batch)(i) {
            let k = choose|k: int| #[trigger]
                is_first_of(batch, i, k) && batch.rev@[k]@ != batch.rev@[i]@;
            assert(k < i);
        }
    }
}

proof fn lemma_one_first(batch: SeedBatch, i: int, j: int, k: int)
    requires
        is_first_of(batch, i, j),
        is_first_of(batch, i, k),
    ensures
        j == k,
{
    if j < k {
        assert(same_row(batch, i, j));
    }
    if k < j {
        assert(same_row(batch, i, k));
    }
}

proof fn lemma_first_revs(batch: SeedBatch, i: int, n: int)
    requires
        batch.wf(),
        0 <= n <= i < batch.rev@.len(),
    ensures
        batch.first_revs(n).contains_key(batch.key(i)) <==> exists|j: int| #[trigger]
            is_first_of(batch, i, j) && j < n,
        forall|j: int| #[trigger]
            is_first_of(batch, i, j) && j < n ==> batch.first_revs(n)[batch.key(i)]
                == batch.rev@[j]@,
    decreases n,
{
    if n > 0 {
        lemma_first_revs(batch, i, n - 1);
        let key = batch.key(i);
        let before = batch.first_revs(n - 1);
        assert(same_row(batch, i, n - 1) <==> batch.key(n - 1) == key);
        if batch.key(n - 1) == key && !before.contains_key(key) {
            assert(is_first_of(batch, i, n - 1)) by {
                assert forall|k: int| 0 <= k < n - 1 implies !#[trigger] same_row(
                    batch,
                    i,
                    k,
                ) by {
                    if same_row(batch, i, k) {
                        lemma_has_first(batch, i, k);
                        let j = choose|j: int| #[trigger] is_first_of(batch, i, j) && j <= k;
                        assert(j < n - 1);
                    }
                }
            }
        }
        assert forall|j: int| #[trigger]
            is_first_of(batch, i, j) && j < n implies batch.first_revs(n)[key]
            == batch.rev@[j]@ by {
            if j < n - 1 {
                assert(before.contains_key(key));
            } else {
                if before.contains_key(key) {
                    let k = choose|k: int| #[trigger] is_first_of(batch, i, k) && k < n - 1;
                    lemma_one_first(batch, i, j, k);
                }
            }
        }
        if exists|j: int| #[trigger] is_first_of(batch, i, j) && j < n {
            let j = choose|j: int| #[trigger] is_first_of(batch, i, j) && j < n;
            if j == n - 1 {
                assert(same_row(batch, i, n - 1));
            }
        }
        if before.contains_key(key) {
            let j = choose|j: int| #[trigger] is_first_of(batch, i, j) && j < n - 1;
            assert(is_first_of(batch, i, j) && j < n);
        }
    }
}

proof fn lemma_has_first(batch: SeedBatch, i: int, k: int)
    requires
        0 <= k <= i,
        same_row(batch, i, k),
    ensures
        exists|j: int| #[trigger] is_first_of(batch, i, j) && j <= k,
    decreases k,
{
    if exists|j: int| 0 <= j < k && #[trigger] same_row(batch, i, j) {
        let j = choose|j: int| 0 <= j < k && #[trigger] same_row(batch, i, j);
        lemma_has_first(batch, i, j);
        let f = choose|f: int| #[trigger] is_first_of(batch, i, f) && f <= j;
        assert(is_first_of(batch, i, f) && f <= k);
    } else {
        assert(is_first_of(batch, i, k));
    }
}

/// The bin of row `i` is a number that is not expected.
pub open spec fn bin_strays(bin: Seq<String>) -> spec_fn(int) -> bool {
    |i: int| bin_number(bin[i]@) matches Some(v) && !(48 <= v && v <= 127)
}

/// The bin of row `i` stands for no number.
pub open spec fn bin_bad(bin: Seq<String>) -> spec_fn(int) -> bool {
    |i: int| bin_number(bin[i]@) is None
}

/// Row `i` has no root.
pub open spec fn root_missing(root: Seq<u64>) -> spec_fn(int) -> bool {
    |i: int| root[i] == u64::MAX
}

/// What is counted while the seeds are made, row by row.
pub proof fn law_seed_counts(bin: Seq<String>, root: Seq<u64>, n: int)
    requires
        0 <= n,
    ensures
        strays_below(bin, n) == how_many(bin_strays(bin), n),
        bad_below(bin, n) == how_many(bin_bad(bin), n),
        missing_below(root, n) == how_many(root_missing(root), n),
    decreases n,
{
    lemma_how_many(bin_strays(bin), n);
    lemma_how_many(bin_bad(bin), n);
    lemma_how_many(root_missing(root), n);
    if n > 0 {
        law_seed_counts(bin, root, n - 1);
    }
}

/// The revisions that are looked up for a batch are those of its rows.
pub proof fn law_rev_ids(batch: SeedBatch, n: int, id: Seq<char>)
    requires
        0 <= n <= batch.rev@.len(),
    ensures
        batch.rev_ids(n).contains(id) <==> exists|i: int|
            0 <= i < n && full_rev_id((#[trigger] batch.rev@[i])@) == id,
{
    let ids = batch.rev@.take(n).map_values(|rev: String| full_rev_id(rev@));
    if batch.rev_ids(n).contains(id) {
        let i = choose|i: int| 0 <= i < ids.len() && ids[i] == id;
        assert(batch.rev@.take(n)[i] == batch.rev@[i]);
    }
    if exists|i: int| 0 <= i < n && full_rev_id((#[trigger] batch.rev@[i])@) == id {
        let i = choose|i: int| 0 <= i < n && full_rev_id((#[trigger] batch.rev@[i])@) == id;
        assert(ids[i] == id);
    }
}

/// The column of a name is the last that has it.
pub proof fn law_last_named(names: Seq<String>, name: Seq<char>, i: int)
    requires
        names.len() <= usize::MAX,
    ensures
        0 <= i < names.len() && names[i]@ == name && (forall|k: int|
            i < k < names.len() ==> (#[trigger] names[k])@ != name) ==> last_named(names, name)
            == Some(i as usize),
        (forall|k: int| 0 <= k < names.len() ==> (#[trigger] names[k])@ != name) ==> last_named(
            names,
            name,
        ) is None,
{
    lemma_last_below(names, name, names.len() as int, i);
}

proof fn lemma_last_below(names: Seq<String>, name: Seq<char>, n: int, i: int)
    requires
        0 <= n <= names.len() <= usize::MAX,
    ensures
        0 <= i < n && names[i]@ == name && (forall|k: int|
            i < k < n ==> (#[trigger] names[k])@ != name) ==> last_below(names, name, n) == Some(
            i as usize,
        ),
        (forall|k: int| 0 <= k < n ==> (#[trigger] names[k])@ != name) ==> last_below(
            names,
            name,
            n,
        ) is None,
    decreases n,
{
    if n > 0 {
        lemma_last_below(names, name, n - 1, i);
        if 0 <= i < n && names[i]@ == name && (forall|k: int|
            i < k < n ==> (#[trigger] names[k])@ != name) {
            if i < n - 1 {
                assert(names[n - 1]@ != name);
            }
        }
        if forall|k: int| 0 <= k < n ==> (#[trigger] names[k])@ != name {
            assert(names[n - 1]@ != name);
        }
    }
}

/// Some column has the name.
pub open spec fn has_column(names: Seq<String>, name: Seq<char>) -> bool {
    exists|i: int| 0 <= i < names.len() && (#[trigger] names[i])@ == name
}

proof fn lemma_has_column(names: Seq<String>, name: Seq<char>)
    requires
        names.len() <= usize::MAX,
    ensures
        has_column(names, name) <==> last_named(names, name) is Some,
        last_named(names, name) matches Some(i) ==> i < names.len() && names[i as int]@ == name,
{
    lemma_last_is_column(names, name, names.len() as int);
    if has_column(names, name) {
        let i = choose|i: int| 0 <= i < names.len() && (#[trigger] names[i])@ == name;
        lemma_last_from(names, name, names.len() as int, i);
    }
}

proof fn lemma_last_is_column(names: Seq<String>, name: Seq<char>, n: int)
    requires
        0 <= n <= names.len() <= usize::MAX,
    ensures
        last_below(names, name, n) matches Some(i) ==> i < n && names[i as int]@ == name,
    decreases n,
{
    if n > 0 {
        lemma_last_is_column(names, name, n - 1);
    }
}

proof fn lemma_last_from(names: Seq<String>, name: Seq<char>, n: int, i: int)
    requires
        0 <= i < n <= names.len() <= usize::MAX,
        names[i]@ == name,
    ensures
        last_below(names, name, n) is Some,
    decreases n,
{
    if i < n - 1 {
        lemma_last_from(names, name, n - 1, i);
    }
}

/// The first column that a stage needs and no column has is the one that is missing; nothing is
/// missing where all are there.
pub proof fn law_missing_columns(names: Seq<String>)
    requires
        names.len() <= usize::MAX,
    ensures
        ({
            let repo = has_column(names, "repo"@);
            let commit = has_column(names, "commit_id"@);
            let path = has_column(names, "rel_path"@);
            let bin = has_column(names, "bin"@);
            let id = has_column(names, "id"@);
            let url = has_column(names, "origin_url"@);
            let rev = has_column(names, "rev_swhid"@);
            let first_three = if !repo {
                Some(MissingColumn::Repo)
            } else if !commit {
                Some(MissingColumn::CommitId)
            } else if !path {
                Some(MissingColumn::RelPath)
            } else {
                None
            };
            &&& input_missing(names) == first_three
            &&& seed_missing(names) == (if first_three is Some {
                first_three
            } else if !bin {
                Some(MissingColumn::Bin)
            } else if !rev && !id {
                Some(MissingColumn::RevSwhidAndId)
            } else {
                None
            })
            &&& output_missing(names) == (if first_three is Some {
                first_three
            } else if !id {
                Some(MissingColumn::Id)
            } else if !url {
                Some(MissingColumn::OriginUrl)
            } else if !rev {
                Some(MissingColumn::RevSwhid)
            } else {
                None
            })
        }),
{
    lemma_has_column(names, "repo"@);
    lemma_has_column(names, "commit_id"@);
    lemma_has_column(names, "rel_path"@);
    lemma_has_column(names, "bin"@);
    lemma_has_column(names, "id"@);
    lemma_has_column(names, "origin_url"@);
    lemma_has_column(names, "rev_swhid"@);
}

/// The columns that are chosen have the names that they are chosen for, in this order.
pub proof fn law_chosen_columns(names: Seq<String>)
    requires
        names.len() <= usize::MAX,
    ensures
        input_missing(names) is None ==> {
            let c = input_chosen(names);
            &&& c.len() == (if has_column(names, "bin"@) {
                4nat
            } else {
                3nat
            })
            &&& names[c[0] as int]@ == "repo"@
            &&& names[c[1] as int]@ == "commit_id"@
            &&& names[c[2] as int]@ == "rel_path"@
            &&& has_column(names, "bin"@) ==> names[c[3] as int]@ == "bin"@
        },
        seed_missing(names) is None ==> {
            let c = seed_leaves(names);
            let rev = has_column(names, "rev_swhid"@);
            let id = has_column(names, "id"@);
            &&& c.len() == (if rev && id {
                6nat
            } else {
                5nat
            })
            &&& names[c[0] as int]@ == "repo"@
            &&& names[c[1] as int]@ == "commit_id"@
            &&& names[c[2] as int]@ == "rel_path"@
            &&& names[c[3] as int]@ == "bin"@
            &&& rev ==> names[c[4] as int]@ == "rev_swhid"@
            &&& id ==> names[c.last() as int]@ == "id"@
        },
        output_missing(names) is None ==> {
            let c = output_leaves(names);
            &&& c.len() == 6
            &&& names[c[0] as int]@ == "repo"@
            &&& names[c[1] as int]@ == "commit_id"@
            &&& names[c[2] as int]@ == "rel_path"@
            &&& names[c[3] as int]@ == "id"@
            &&& names[c[4] as int]@ == "origin_url"@
            &&& names[c[5] as int]@ == "rev_swhid"@
        },
{
    lemma_has_column(names, "repo"@);
    lemma_has_column(names, "commit_id"@);
    lemma_has_column(names, "rel_path"@);
    lemma_has_column(names, "bin"@);
    lemma_has_column(names, "id"@);
    lemma_has_column(names, "origin_url"@);
    lemma_has_column(names, "rev_swhid"@);
}

/// The columns of the input that are read are those with one of the four names, in their order.
pub proof fn law_input_leaves(names: Seq<String>, n: int)
    requires
        0 <= n <= names.len() <= usize::MAX,
    ensures
        forall|i: usize| #[trigger]
            input_leaves(names, n).contains(i) <==> i < n && (names[i as int]@ == "repo"@
                || names[i as int]@ == "commit_id"@ || names[i as int]@ == "rel_path"@
                || names[i as int]@ == "bin"@),
        forall|a: int, b: int|
            0 <= a < b < input_leaves(names, n).len() ==> input_leaves(names, n)[a] < input_leaves(
                names,
                n,
            )[b],
    decreases n,
{
    let leaves = input_leaves(names, n);
    if n > 0 {
        law_input_leaves(names, n - 1);
        let before = input_leaves(names, n - 1);
        let last = (n - 1) as usize;
        assert forall|a: int| 0 <= a < before.len() implies #[trigger] before[a] < n - 1 by {
            assert(before.contains(before[a]));
        }
        assert forall|i: usize| #[trigger]
            leaves.contains(i) <==> i < n && (names[i as int]@ == "repo"@ || names[i as int]@
                == "commit_id"@ || names[i as int]@ == "rel_path"@ || names[i as int]@
                == "bin"@) by {
            if before.contains(i) {
                let k = choose|k: int| 0 <= k < before.len() && before[k] == i;
                assert(leaves[k] == i);
            }
            if leaves.contains(i) {
                let k = choose|k: int| 0 <= k < leaves.len() && leaves[k] == i;
                if k < before.len() {
                    assert(before[k] == i);
                }
            }
            if i == last && leaves.len() > before.len() {
                assert(leaves[before.len() as int] == i);
            }
        }
    }
}

/// The rank of a column among others is the number of those before it.
pub proof fn law_rank(leaves: Seq<usize>, x: usize)
    ensures
        rank(leaves, x) == how_many(|k: int| leaves[k] < x, leaves.len() as int),
    decreases leaves.len(),
{
    let p = |k: int| leaves[k] < x;
    let n = leaves.len() as int;
    lemma_how_many(p, n);
    if n > 0 {
        let before = leaves.drop_last();
        law_rank(before, x);
        let q = |k: int| before[k] < x;
        assert(Set::new(|i: int| 0 <= i < n - 1 && p(i)) =~= Set::new(
            |i: int| 0 <= i < n - 1 && q(i),
        ));
    }
}

/// Row by row, the directory map is what its arrays hold between the offsets of a rank.
pub proof fn law_dir_map(map: DirMap, dir: u64, k: int)
    requires
        map.wf(),
        map.index@.contains_key(dir),
        0 <= k,
        map.offsets@[map.index@[dir] as int] + k < map.offsets@[map.index@[dir] + 1],
    ensures
        map@.contains_key(dir),
        map@[dir].len() == map.offsets@[map.index@[dir] + 1] - map.offsets@[map.index@[dir] as int],
        ({
            let at = map.offsets@[map.index@[dir] as int] + k;
            map@[dir][k] == (map.ent_fid@[at], map.ent_child@[at], map.ent_ty@[at])
        }),
{
}

/// What is marked in the end, where some nodes were marked before: these, the roots, and every
/// directory that follows a node that was not marked before; and nothing that is not in every set
/// of that kind.
pub proof fn law_reach_beside_marked(
    g: GraphModel,
    roots: Set<usize>,
    marked: Set<int>,
    u: usize,
    v: usize,
    set: Set<int>,
)
    requires
        marked.subset_of(set),
        forall|r: usize| #[trigger] roots.contains(r) ==> set.contains(r as int),
        forall|a: usize, b: usize|
            set.contains(a as int) && !marked.contains(a as int) && #[trigger] (g.succ)(a).contains(
                b,
            ) && (g.node_type)(b) == NodeType::Directory ==> set.contains(b as int),
    ensures
        marked.subset_of(reach(g, roots, marked)),
        roots.contains(v) ==> reach(g, roots, marked).contains(v as int),
        reach(g, roots, marked).contains(u as int) && !marked.contains(u as int) && (g.succ)(
            u,
        ).contains(v) && (g.node_type)(v) == NodeType::Directory ==> reach(
            g,
            roots,
            marked,
        ).contains(v as int),
        reach(g, roots, marked).subset_of(set),
{
    let all = reach(g, roots, marked);
    assert((v as int) as usize == v && (u as int) as usize == u);
    if roots.contains(v) && !marked.contains(v as int) {
        assert(reached_in(g, roots, marked, v, 0));
        assert(is_reached(g, roots, marked, v));
    }
    if all.contains(u as int) && !marked.contains(u as int) && (g.succ)(u).contains(v) && (
    g.node_type)(v) == NodeType::Directory && !marked.contains(v as int) {
        let steps = choose|steps: nat| reached_in(g, roots, marked, u, steps);
        assert(reached_in(g, roots, marked, v, steps + 1)) by {
            assert((g.succ)(u).contains(v) && reached_in(
                g,
                roots,
                marked,
                u,
                ((steps + 1) - 1) as nat,
            ));
        }
        assert(is_reached(g, roots, marked, v));
    }
    assert forall|n: int| all.contains(n) implies set.contains(n) by {
        if !marked.contains(n) {
            let node = n as usize;
            let steps = choose|steps: nat| reached_in(g, roots, marked, node, steps);
            lemma_reached_within(g, roots, marked, set, node, steps);
        }
    }
}

proof fn lemma_reached_within(
    g: GraphModel,
    roots: Set<usize>,
    marked: Set<int>,
    set: Set<int>,
    node: usize,
    steps: nat,
)
    requires
        forall|r: usize| #[trigger] roots.contains(r) ==> set.contains(r as int),
        forall|a: usize, b: usize|
            set.contains(a as int) && !marked.contains(a as int) && #[trigger] (g.succ)(a).contains(
                b,
            ) && (g.node_type)(b) == NodeType::Directory ==> set.contains(b as int),
        reached_in(g, roots, marked, node, steps),
    ensures
        set.contains(node as int),
    decreases steps,
{
    if steps > 0 {
        let m = choose|m: usize| #[trigger]
            (g.succ)(m).contains(node) && reached_in(g, roots, marked, m, (steps - 1) as nat);
        lemma_reached_within(g, roots, marked, set, m, (steps - 1) as nat);
        assert(!marked.contains(m as int));
    }
}

} // verus!
