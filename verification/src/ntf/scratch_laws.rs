//! The laws of the choice of a revision for each repository and commit.

use vstd::prelude::*;
use vstd::utf8::{encode_utf8, is_ascii_chars, is_ascii_chars_encode_utf8};

use crate::ntf::cands::flat_rows;
use crate::ntf::graph::{GraphModel, NodeType};
use crate::ntf::maps::GroupKey;
use crate::ntf::order::{lemma_text_total, lemma_text_transitive, text_less};
use crate::ntf::prefix::{has_prefix, hash_prefix, rev_nodes};
use crate::ntf::provenance::{
    comes_from, is_greatest, is_head_of_any, passing, pool, root_dir, winner,
};
use crate::ntf::scratch::{
    all_full, commit_key, is_resolved, key_resolves, key_rev, key_rows, lower, resolved_in,
    row_text, rows_view, winner_for, Input, OutRow,
};
use crate::ntf::seeds::root_of_id;
use crate::ntf::sorted::ascends;
use crate::ntf::text::{full_rev_id, github_url, hex_digit, hex_of};

verus! {

proof fn lemma_rev_nodes(g: GraphModel, nibbles: nat, key: Seq<u8>, lo: int, hi: int, n: usize)
    requires
        0 <= lo <= hi <= usize::MAX,
    ensures
        rev_nodes(g, nibbles, key, lo, hi).contains(n) <==> (lo <= n < hi && has_prefix(
            g,
            nibbles,
            key,
            n,
        )),
    decreases hi - lo,
{
    let nodes = rev_nodes(g, nibbles, key, lo, hi);
    if lo < hi {
        lemma_rev_nodes(g, nibbles, key, lo, hi - 1, n);
        let before = rev_nodes(g, nibbles, key, lo, hi - 1);
        let last = (hi - 1) as usize;
        if before.contains(n) {
            let k = choose|k: int| 0 <= k < before.len() && before[k] == n;
            assert(nodes[k] == n);
        }
        if nodes.contains(n) {
            let k = choose|k: int| 0 <= k < nodes.len() && nodes[k] == n;
            if k < before.len() {
                assert(before[k] == n);
            }
        }
        if n == last && has_prefix(g, nibbles, key, n) {
            assert(nodes[before.len() as int] == n);
        }
    }
}

/// The index gives for a prefix just the revisions whose hash starts with it, in ascending
/// order.
pub proof fn law_prefix_lookup(g: GraphModel, nibbles: nat, key: Seq<u8>, lo: int, hi: int)
    requires
        0 <= lo <= hi <= usize::MAX,
    ensures
        forall|n: usize|
            #![trigger has_prefix(g, nibbles, key, n)]
            #![trigger rev_nodes(g, nibbles, key, lo, hi).contains(n)]
            rev_nodes(g, nibbles, key, lo, hi).contains(n) <==> (lo <= n < hi && has_prefix(
                g,
                nibbles,
                key,
                n,
            )),
        ascends(rev_nodes(g, nibbles, key, lo, hi)),
    decreases hi - lo,
{
    let nodes = rev_nodes(g, nibbles, key, lo, hi);
    assert forall|n: usize|
        #![trigger has_prefix(g, nibbles, key, n)]
        #![trigger nodes.contains(n)]
        nodes.contains(n) <==> (lo <= n < hi && has_prefix(g, nibbles, key, n)) by {
        lemma_rev_nodes(g, nibbles, key, lo, hi, n);
    }
    if lo < hi {
        law_prefix_lookup(g, nibbles, key, lo, hi - 1);
        let before = rev_nodes(g, nibbles, key, lo, hi - 1);
        assert forall|i: int, j: int| 0 <= i < j < nodes.len() implies nodes[i] < nodes[j] by {
            if j < before.len() {
                assert(before[i] < before[j]);
            } else {
                assert(before.contains(before[i]));
            }
        }
    }
}

/// A commit prefix of at least `nibbles` digits finds the revision that it is taken from.
pub proof fn law_prefix_finds_commit(g: GraphModel, nibbles: nat, node: usize, digits: nat)
    requires
        node < g.num_nodes,
        (g.node_type)(node) == NodeType::Revision,
        (g.hash)(node).len() == 20,
        nibbles <= digits <= 40,
    ensures
        rev_nodes(
            g,
            nibbles,
            commit_key(hex_of((g.hash)(node)).take(digits as int), nibbles),
            0,
            g.num_nodes as int,
        ).contains(node),
{
    let hash = (g.hash)(node);
    let commit = hex_of(hash).take(digits as int);
    assert forall|i: int| 0 <= i < commit.len() implies {
        let c = #[trigger] commit[i];
        (0x30 <= c as u32 <= 0x39 || 0x61 <= c as u32 <= 0x66)
    } by {
        let n = if i % 2 == 0 {
            hash[i / 2] as int / 16
        } else {
            hash[i / 2] as int % 16
        };
        assert(commit[i] == hex_digit(n));
        assert(0 <= n < 16);
    }
    assert(is_ascii_chars(commit));
    is_ascii_chars_encode_utf8(commit);
    let bytes = encode_utf8(commit);
    assert(bytes.len() == digits);
    let key = commit_key(commit, nibbles);
    assert(key =~= hash_prefix(hash, nibbles)) by {
        assert forall|i: int| 0 <= i < nibbles implies key[i] == hash_prefix(hash, nibbles)[i] by {
            assert(bytes[i] == commit[i] as u8);
            assert(lower(bytes[i]) == bytes[i]);
        }
    }
    law_prefix_lookup(g, nibbles, key, 0, g.num_nodes as int);
    assert(has_prefix(g, nibbles, key, node));
}

/// A set of nodes that is not empty has a greatest one.
proof fn lemma_greatest_exists(g: GraphModel, set: Set<usize>) -> (w: usize)
    requires
        set.finite(),
        !set.is_empty(),
    ensures
        is_greatest(g, set, w),
    decreases set.len(),
{
    let a = set.choose();
    let rest = set.remove(a);
    lemma_text_total((g.swhid)(a), (g.swhid)(a));
    if rest.is_empty() {
        assert forall|o: usize| #[trigger] set.contains(o) implies o == a by {
            if o != a {
                assert(rest.contains(o));
            }
        }
        a
    } else {
        let b = lemma_greatest_exists(g, rest);
        let ta = (g.swhid)(a);
        let tb = (g.swhid)(b);
        lemma_text_total(ta, tb);
        let w = if text_less(ta, tb) || (ta == tb && a <= b) {
            b
        } else {
            a
        };
        assert forall|o: usize| #[trigger] set.contains(o) implies !text_less(
            (g.swhid)(w),
            (g.swhid)(o),
        ) && ((g.swhid)(o) == (g.swhid)(w) ==> o <= w) by {
            let to = (g.swhid)(o);
            if o != a {
                assert(rest.contains(o));
                if w == a {
                    lemma_text_transitive(to, tb, ta);
                }
            }
        }
        w
    }
}

/// The winner is one of the candidates, comes from one of the snapshots, is a branch head
/// where any candidate that comes from them is, and no other such candidate has a greater
/// SWHID. There is a winner just where some candidate comes from the snapshots.
pub proof fn law_winner(g: GraphModel, snaps: Set<usize>, cands: Set<usize>)
    requires
        cands.finite(),
    ensures
        winner(g, snaps, cands) is Some <==> exists|c: usize| #[trigger]
            cands.contains(c) && comes_from(g, snaps, c),
        winner(g, snaps, cands) matches Some(w) ==> {
            &&& cands.contains(w)
            &&& comes_from(g, snaps, w)
            &&& forall|c: usize| #[trigger]
                cands.contains(c) && comes_from(g, snaps, c) ==> {
                    &&& is_head_of_any(g, snaps, c) ==> is_head_of_any(g, snaps, w)
                    &&& is_head_of_any(g, snaps, c) == is_head_of_any(g, snaps, w) ==> !text_less(
                        (g.swhid)(w),
                        (g.swhid)(c),
                    )
                }
        },
{
    let pass = passing(g, snaps, cands);
    let heads = pass.filter(|rev: usize| is_head_of_any(g, snaps, rev));
    let chosen = pool(g, snaps, cands);
    assert forall|c: usize| #[trigger] cands.contains(c) && comes_from(
        g,
        snaps,
        c,
    ) implies pass.contains(c) && !chosen.is_empty() by {
        assert(pass.contains(c));
        if heads.is_empty() {
            assert(chosen.contains(c));
        }
    }
    if !chosen.is_empty() {
        assert(chosen.finite());
        let some = lemma_greatest_exists(g, chosen);
        let w = winner(g, snaps, cands)->0;
        assert(is_greatest(g, chosen, w));
        assert(pass.contains(w));
        assert(cands.contains(w) && comes_from(g, snaps, w));
        assert forall|c: usize| #[trigger] cands.contains(c) && comes_from(g, snaps, c) implies {
            &&& is_head_of_any(g, snaps, c) ==> is_head_of_any(g, snaps, w)
            &&& is_head_of_any(g, snaps, c) == is_head_of_any(g, snaps, w) ==> !text_less(
                (g.swhid)(w),
                (g.swhid)(c),
            )
        } by {
            assert(pass.contains(c));
            if is_head_of_any(g, snaps, c) {
                assert(heads.contains(c));
                assert(chosen.contains(c));
            } else if heads.is_empty() {
                assert(chosen.contains(c));
            }
        }
    }
}

/// The winner of a group has a root directory, so that its rows are walked: where the graph
/// finds a revision by its own SWHID, the seeds of the rows have that root.
pub proof fn law_winner_has_root(
    g: GraphModel,
    origin: Option<usize>,
    cands: Set<usize>,
    w: usize,
)
    requires
        winner_for(g, origin, cands) == Some(w),
        "swh:1:rev:"@.is_prefix_of((g.swhid)(w)),
        (g.node_id)((g.swhid)(w)) == Some(w),
    ensures
        root_dir(g, w) is Some,
        root_of_id(g, full_rev_id((g.swhid)(w))) == root_dir(g, w)->0 as u64,
{
}

/// The number of rows below `n` whose repository and commit are in `keys`.
pub open spec fn rows_in(inp: Input, keys: Seq<GroupKey>, n: int) -> nat
    decreases n,
{
    if n <= 0 {
        0
    } else {
        rows_in(inp, keys, n - 1) + if keys.contains(inp.key(n - 1)) {
            1nat
        } else {
            0nat
        }
    }
}

proof fn lemma_rows_in_push(inp: Input, keys: Seq<GroupKey>, key: GroupKey, n: int)
    requires
        !keys.contains(key),
        0 <= n,
    ensures
        rows_in(inp, keys.push(key), n) == rows_in(inp, keys, n) + inp.rows_with(key, n).len(),
    decreases n,
{
    if n > 0 {
        lemma_rows_in_push(inp, keys, key, n - 1);
        let k = inp.key(n - 1);
        let after = keys.push(key);
        assert(after.contains(k) <==> keys.contains(k) || k == key) by {
            assert(after[keys.len() as int] == key);
            if keys.contains(k) {
                let i = choose|i: int| 0 <= i < keys.len() && keys[i] == k;
                assert(after[i] == k);
            }
            if after.contains(k) {
                let i = choose|i: int| 0 <= i < after.len() && after[i] == k;
                if i < keys.len() {
                    assert(keys[i] == k);
                }
            }
        }
    }
}

proof fn lemma_no_rows_in(inp: Input, n: int)
    ensures
        rows_in(inp, Seq::empty(), n) == 0,
    decreases n,
{
    if n > 0 {
        lemma_no_rows_in(inp, n - 1);
    }
}

/// The first groups.
proof fn lemma_flat_len(
    g: GraphModel,
    inp: Input,
    nibbles: nat,
    order: Seq<GroupKey>,
    out: Seq<Vec<OutRow>>,
    k: int,
)
    requires
        resolved_in(g, inp, nibbles, order, out),
        0 <= k <= out.len(),
    ensures
        flat_rows(out.take(k)).len() == rows_in(inp, order.take(k), inp.repo@.len() as int),
    decreases k,
{
    let n = inp.repo@.len() as int;
    if k == 0 {
        assert(order.take(0) =~= Seq::empty());
        lemma_no_rows_in(inp, n);
    } else {
        lemma_flat_len(g, inp, nibbles, order, out, k - 1);
        assert(out.take(k).drop_last() =~= out.take(k - 1));
        assert(out.take(k).last() == out[k - 1]);
        let key = order[k - 1];
        assert(order.take(k) =~= order.take(k - 1).push(key));
        assert(!order.take(k - 1).contains(key)) by {
            let before = order.take(k - 1);
            if before.contains(key) {
                let i = choose|i: int| 0 <= i < before.len() && before[i] == key;
                assert(order[i] == order[k - 1]);
            }
        }
        lemma_rows_in_push(inp, order.take(k - 1), key, n);
        assert(rows_view(out[k - 1]@) == key_rows(g, inp, nibbles, key));
        assert(rows_view(out[k - 1]@).len() == inp.group(key).len());
    }
}

/// The number of rows below `n` whose repository and commit stand for a revision.
pub open spec fn resolving_rows(g: GraphModel, inp: Input, nibbles: nat, n: int) -> nat
    decreases n,
{
    if n <= 0 {
        0
    } else {
        resolving_rows(g, inp, nibbles, n - 1) + if key_rev(
            g,
            all_full(inp.commit_id@),
            nibbles,
            inp.key(n - 1),
        ) is Some {
            1nat
        } else {
            0nat
        }
    }
}

/// Row `i` is in its group.
proof fn lemma_row_in_group(inp: Input, i: int, n: int) -> (k: int)
    requires
        0 <= i < n <= usize::MAX,
    ensures
        0 <= k < inp.rows_with(inp.key(i), n).len(),
        inp.rows_with(inp.key(i), n)[k] == i,
    decreases n,
{
    if i == n - 1 {
        inp.rows_with(inp.key(i), n - 1).len() as int
    } else {
        lemma_row_in_group(inp, i, n - 1)
    }
}

proof fn lemma_resolving(
    g: GraphModel,
    inp: Input,
    nibbles: nat,
    order: Seq<GroupKey>,
    out: Seq<Vec<OutRow>>,
    n: int,
)
    requires
        resolved_in(g, inp, nibbles, order, out),
        0 <= n <= inp.repo@.len() <= usize::MAX,
    ensures
        rows_in(inp, order, n) == resolving_rows(g, inp, nibbles, n),
    decreases n,
{
    if n > 0 {
        lemma_resolving(g, inp, nibbles, order, out, n - 1);
        let key = inp.key(n - 1);
        let k = lemma_row_in_group(inp, n - 1, inp.repo@.len() as int);
        assert(inp.group(key).len() > 0);
        assert(order.contains(key) <==> key_resolves(g, inp, nibbles, key));
    }
}

/// Of the input there are as many resolved rows as rows whose repository and commit stand
/// for a revision: each of these gives one row, and the others none.
pub proof fn law_one_row_each(g: GraphModel, inp: Input, nibbles: nat, out: Seq<Vec<OutRow>>)
    requires
        is_resolved(g, inp, nibbles, out),
        inp.repo@.len() <= usize::MAX,
    ensures
        flat_rows(out).len() == resolving_rows(g, inp, nibbles, inp.repo@.len() as int),
        forall|i: int|
            0 <= i < inp.repo@.len() && key_rev(
                g,
                all_full(inp.commit_id@),
                nibbles,
                #[trigger] inp.key(i),
            ) is Some ==> exists|a: int, b: int|
                0 <= a < out.len() && 0 <= b < out[a]@.len() && (#[trigger] out[a]@[b])@
                    == row_text(
                    inp,
                    i,
                    (g.swhid)(key_rev(g, all_full(inp.commit_id@), nibbles, inp.key(i))->0),
                    github_url(inp.key(i).0),
                ),
{
    let order = choose|order: Seq<GroupKey>| resolved_in(g, inp, nibbles, order, out);
    let n = inp.repo@.len() as int;
    lemma_flat_len(g, inp, nibbles, order, out, out.len() as int);
    assert(out.take(out.len() as int) =~= out);
    assert(order.take(out.len() as int) =~= order);
    lemma_resolving(g, inp, nibbles, order, out, n);
    assert forall|i: int|
        0 <= i < inp.repo@.len() && key_rev(
            g,
            all_full(inp.commit_id@),
            nibbles,
            #[trigger] inp.key(i),
        ) is Some implies exists|a: int, b: int|
        0 <= a < out.len() && 0 <= b < out[a]@.len() && (#[trigger] out[a]@[b])@ == row_text(
            inp,
            i,
            (g.swhid)(key_rev(g, all_full(inp.commit_id@), nibbles, inp.key(i))->0),
            github_url(inp.key(i).0),
        ) by {
        let key = inp.key(i);
        let b = lemma_row_in_group(inp, i, n);
        assert(inp.group(key)[b] == i);
        assert(order.contains(key));
        let a = choose|a: int| 0 <= a < order.len() && order[a] == key;
        assert(rows_view(out[a]@) == key_rows(g, inp, nibbles, order[a]));
        assert(rows_view(out[a]@)[b] == out[a]@[b]@);
    }
}

} // verus!
