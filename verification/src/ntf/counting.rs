//! How many positions satisfy a property.

use vstd::prelude::*;

verus! {

/// The number of positions below `n` that satisfy `p`.
pub open spec fn how_many(p: spec_fn(int) -> bool, n: int) -> nat {
    Set::new(|i: int| 0 <= i < n && p(i)).len()
}

/// One more position counts just where it satisfies `p`.
pub proof fn lemma_how_many(p: spec_fn(int) -> bool, n: int)
    requires
        n >= 0,
    ensures
        Set::new(|i: int| 0 <= i < n && p(i)).finite(),
        n == 0 ==> how_many(p, n) == 0,
        n > 0 ==> how_many(p, n) == how_many(p, n - 1) + if p(n - 1) {
            1nat
        } else {
            0nat
        },
        how_many(p, n) <= n,
    decreases n,
{
    let now = Set::new(|i: int| 0 <= i < n && p(i));
    if n == 0 {
        assert(now =~= Set::<int>::empty());
    } else {
        lemma_how_many(p, n - 1);
        let before = Set::new(|i: int| 0 <= i < n - 1 && p(i));
        if p(n - 1) {
            assert(now =~= before.insert(n - 1));
        } else {
            assert(now =~= before);
        }
    }
}

/// None satisfies `p` just where the number is zero.
pub proof fn lemma_how_many_none(p: spec_fn(int) -> bool, n: int)
    requires
        n >= 0,
    ensures
        how_many(p, n) == 0 <==> forall|i: int| 0 <= i < n ==> !#[trigger] p(i),
    decreases n,
{
    lemma_how_many(p, n);
    if n > 0 {
        lemma_how_many_none(p, n - 1);
        if how_many(p, n) == 0 {
            assert forall|i: int| 0 <= i < n implies !#[trigger] p(i) by {
                if i < n - 1 {
                    assert(how_many(p, n - 1) == 0);
                }
            }
        }
        if forall|i: int| 0 <= i < n ==> !#[trigger] p(i) {
            assert(!p(n - 1));
        }
    }
}

/// Up to a later position there are no fewer.
pub proof fn lemma_how_many_grows(p: spec_fn(int) -> bool, m: int, n: int)
    requires
        0 <= m <= n,
    ensures
        how_many(p, m) <= how_many(p, n),
        m < n && p(m) ==> how_many(p, m) < how_many(p, n),
    decreases n - m,
{
    if m < n {
        lemma_how_many_grows(p, m + 1, n);
        lemma_how_many(p, m + 1);
    }
}

} // verus!
