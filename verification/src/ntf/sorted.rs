//! Sorted lists of nodes without repetition.

use vstd::prelude::*;

verus! {

/// The nodes strictly ascend.
pub open spec fn ascends(v: Seq<usize>) -> bool {
    forall|i: int, j: int| 0 <= i < j < v.len() ==> v[i] < v[j]
}

/// `v` lists the nodes of `set` in strictly ascending order.
pub open spec fn lists(v: Seq<usize>, set: Set<usize>) -> bool {
    ascends(v) && forall|n: usize| v.contains(n) <==> #[trigger] set.contains(n)
}

/// `<[T]>::sort_unstable` puts the items in ascending order, and keeps them all.
#[verifier::external_body]
fn sort_nodes(v: &mut Vec<usize>)
    ensures
        forall|i: int, j: int| 0 <= i < j < final(v)@.len() ==> final(v)@[i] <= final(v)@[j],
        final(v)@.to_multiset() == old(v)@.to_multiset(),
{
    v.sort_unstable();
}

/// Sorts nodes and keeps each once.
pub fn sort_distinct(nodes: Vec<usize>) -> (r: Vec<usize>)
    ensures
        lists(r@, nodes@.to_set()),
{
    let mut sorted = nodes;
    sort_nodes(&mut sorted);
    let mut out: Vec<usize> = Vec::new();
    let mut i: usize = 0;
    while i < sorted.len()
        invariant
            i <= sorted@.len(),
            forall|a: int, b: int| 0 <= a < b < sorted@.len() ==> sorted@[a] <= sorted@[b],
            ascends(out@),
            i == 0 <==> out@.len() == 0,
            i > 0 ==> out@.last() == sorted@[i - 1],
            forall|n: usize| #[trigger] out@.contains(n) <==> sorted@.take(i as int).contains(n),
        decreases sorted@.len() - i,
    {
        let n: usize = sorted[i];
        let ghost before = out@;
        if out.len() == 0 || out[out.len() - 1] != n {
            out.push(n);
        }
        assert forall|m: usize| #[trigger] out@.contains(m) <==> sorted@.take(i + 1).contains(
            m,
        ) by {
            let now = sorted@.take(i + 1);
            assert(now =~= sorted@.take(i as int).push(n));
            assert(before.contains(m) <==> sorted@.take(i as int).contains(m));
            if out@.contains(m) {
                if before.contains(m) {
                    let k = choose|k: int|
                        0 <= k < sorted@.take(i as int).len() && sorted@.take(i as int)[k] == m;
                    assert(now[k] == m);
                } else {
                    assert(m == n);
                    assert(now[i as int] == m);
                }
            }
            if now.contains(m) {
                if m == n {
                    assert(out@[out@.len() - 1] == n);
                } else {
                    let k = choose|k: int| 0 <= k < now.len() && now[k] == m;
                    assert(sorted@.take(i as int)[k] == m);
                    assert(before.contains(m));
                    let b = choose|b: int| 0 <= b < before.len() && before[b] == m;
                    assert(out@[b] == m);
                }
            }
        }
        i = i + 1;
    }
    proof {
        assert(sorted@.take(i as int) =~= sorted@);
        assert forall|n: usize| out@.contains(n) <==> #[trigger] nodes@.to_set().contains(n) by {
            sorted@.to_multiset_ensures();
            nodes@.to_multiset_ensures();
            assert(out@.contains(n) <==> sorted@.contains(n));
            assert(sorted@.to_multiset().count(n) == nodes@.to_multiset().count(n));
            assert(sorted@.contains(n) <==> sorted@.to_multiset().count(n) > 0);
            assert(nodes@.contains(n) <==> nodes@.to_multiset().count(n) > 0);
        }
    }
    out
}

} // verus!
