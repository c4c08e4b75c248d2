//! Bit vectors over word arrays.

use vstd::prelude::*;

verus! {

/// Whether bit `b` of `word` is set.
pub open spec fn word_bit(word: u64, b: u64) -> bool {
    word & (1u64 << b) != 0
}

/// The positions of the bits that are set in `words`.
pub open spec fn bits_of(words: Seq<u64>) -> Set<int> {
    Set::new(|n: int| 0 <= n < 64 * words.len() && word_bit(words[n / 64], (n % 64) as u64))
}

/// The number of ones among the lowest `k` bits of `word`.
pub open spec fn ones_below(word: u64, k: nat) -> nat
    decreases k,
{
    if k == 0 {
        0
    } else {
        ones_below(word, (k - 1) as nat) + if word_bit(word, (k - 1) as u64) {
            1nat
        } else {
            0nat
        }
    }
}

/// The number of ones in all `words`.
pub open spec fn ones_in(words: Seq<u64>) -> nat
    decreases words.len(),
{
    if words.len() == 0 {
        0
    } else {
        ones_in(words.drop_last()) + ones_below(words.last(), 64)
    }
}

/// `u64::count_ones` counts the ones in the binary representation of its argument.
pub assume_specification[ u64::count_ones ](word: u64) -> (r: u32)
    ensures
        r == ones_below(word, 64),
;

/// Setting bit `b` of a word sets that bit and leaves the others.
pub proof fn lemma_set_word_bit(word: u64, b: u64, j: u64)
    requires
        b < 64,
        j < 64,
    ensures
        word_bit(word | (1u64 << b), j) <==> word_bit(word, j) || j == b,
{
    assert((word | (1u64 << b)) & (1u64 << j) != 0 <==> (word & (1u64 << j) != 0) || j == b)
        by (bit_vector)
        requires
            b < 64,
            j < 64,
    ;
}

/// No bit of zeroed words is set.
pub proof fn lemma_zero_words(words: Seq<u64>)
    requires
        forall|i: int| 0 <= i < words.len() ==> words[i] == 0,
    ensures
        bits_of(words) == Set::<int>::empty(),
{
    assert forall|n: int| !bits_of(words).contains(n) by {
        if 0 <= n < 64 * words.len() {
            let b = (n % 64) as u64;
            assert(0u64 & (1u64 << b) == 0) by (bit_vector);
        }
    }
    assert(bits_of(words) =~= Set::<int>::empty());
}

/// Setting one bit of one word adds its position.
pub proof fn lemma_set_bit(words: Seq<u64>, n: int)
    requires
        0 <= n < 64 * words.len(),
    ensures
        bits_of(words.update(n / 64, words[n / 64] | (1u64 << ((n % 64) as u64)))) == bits_of(
            words,
        ).insert(n),
{
    let word = words[n / 64];
    let b = (n % 64) as u64;
    let updated = words.update(n / 64, word | (1u64 << b));
    assert forall|m: int| bits_of(updated).contains(m) <==> bits_of(words).insert(n).contains(m) by {
        if 0 <= m < 64 * words.len() {
            if m / 64 == n / 64 {
                lemma_set_word_bit(word, b, (m % 64) as u64);
            }
        }
    }
    assert(bits_of(updated) =~= bits_of(words).insert(n));
}

/// The positions of the ones among the lowest `k` bits of a word that starts at `base`.
spec fn word_bits_from(word: u64, base: int, k: nat) -> Set<int> {
    Set::new(|n: int| base <= n < base + k && word_bit(word, (n - base) as u64))
}

proof fn lemma_word_bits_len(word: u64, base: int, k: nat)
    requires
        k <= 64,
    ensures
        word_bits_from(word, base, k).finite(),
        word_bits_from(word, base, k).len() == ones_below(word, k),
    decreases k,
{
    if k == 0 {
        assert(word_bits_from(word, base, 0) =~= Set::<int>::empty());
    } else {
        let j = (k - 1) as nat;
        lemma_word_bits_len(word, base, j);
        if word_bit(word, j as u64) {
            assert(word_bits_from(word, base, k) =~= word_bits_from(word, base, j).insert(base + j));
        } else {
            assert(word_bits_from(word, base, k) =~= word_bits_from(word, base, j));
        }
    }
}

/// There are as many set positions as there are ones in the words.
pub proof fn lemma_bits_len(words: Seq<u64>)
    ensures
        bits_of(words).finite(),
        bits_of(words).len() == ones_in(words),
        bits_of(words).len() <= 64 * words.len(),
    decreases words.len(),
{
    if words.len() == 0 {
        assert(bits_of(words) =~= Set::<int>::empty());
    } else {
        let front = words.drop_last();
        let base = 64 * front.len() as int;
        lemma_bits_len(front);
        lemma_word_bits_len(words.last(), base, 64);
        lemma_ones_below_bound(words.last(), 64);
        let last = word_bits_from(words.last(), base, 64);
        assert(bits_of(words) =~= bits_of(front).union(last)) by {
            assert forall|n: int| bits_of(words).contains(n) <==> bits_of(front).union(
                last,
            ).contains(n) by {
                if 0 <= n < base {
                    assert(words[n / 64] == front[n / 64]);
                } else if base <= n < base + 64 {
                    assert(n / 64 == front.len());
                    assert(n % 64 == n - base);
                }
            }
        }
        assert(bits_of(front).disjoint(last));
        vstd::set_lib::lemma_set_disjoint_lens(bits_of(front), last);
    }
}

proof fn lemma_ones_below_bound(word: u64, k: nat)
    ensures
        ones_below(word, k) <= k,
    decreases k,
{
    if k > 0 {
        lemma_ones_below_bound(word, (k - 1) as nat);
    }
}

/// The first words have no more ones than all.
proof fn lemma_ones_grow(words: Seq<u64>, n: int)
    requires
        0 <= n <= words.len(),
    ensures
        ones_in(words.take(n)) <= ones_in(words),
    decreases words.len() - n,
{
    if n == words.len() {
        assert(words.take(n) =~= words);
    } else {
        lemma_ones_grow(words, n + 1);
        assert(words.take(n + 1).drop_last() =~= words.take(n));
    }
}

/// Counts the ones in `words`.
pub fn total_ones(words: &Vec<u64>) -> (r: u64)
    requires
        bits_of(words@).len() <= u64::MAX,
    ensures
        r == bits_of(words@).len(),
{
    proof {
        lemma_bits_len(words@);
    }
    let mut total: u64 = 0;
    let mut i: usize = 0;
    while i < words.len()
        invariant
            i <= words@.len(),
            ones_in(words@) <= u64::MAX,
            total == ones_in(words@.take(i as int)),
        decreases words@.len() - i,
    {
        let word = words[i];
        proof {
            assert(words@.take(i + 1).drop_last() =~= words@.take(i as int));
            lemma_ones_grow(words@, i + 1);
        }
        total = total + word.count_ones() as u64;
        i = i + 1;
    }
    proof {
        assert(words@.take(i as int) =~= words@);
    }
    total
}

} // verus!
