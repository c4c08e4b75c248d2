//! What a whole run of the output by bins writes.

use vstd::prelude::*;

use crate::ntf::bins::{BinEnd, BinWriter, BinWriters, Flush, OUTPUT_BATCH_SIZE};
use crate::ntf::traverse::{binned_view, BinnedRow, OutputRow, OutputText};

verus! {

/// The rows of one bin, in their order.
pub open spec fn bin_rows(rows: Seq<BinnedRow>, bin: u16) -> Seq<OutputRow>
    decreases rows.len(),
{
    if rows.len() == 0 {
        Seq::empty()
    } else {
        let before = bin_rows(rows.drop_last(), bin);
        if rows.last().bin == bin {
            before.push(rows.last().row)
        } else {
            before
        }
    }
}

/// What pushing the rows handed out for one bin, in order, where `flushes[i]` was handed out
/// with row `i`.
pub open spec fn push_flushes(
    rows: Seq<BinnedRow>,
    flushes: Seq<Option<Flush>>,
    bin: u16,
) -> Seq<Flush>
    decreases rows.len(),
{
    if rows.len() == 0 {
        Seq::empty()
    } else {
        let before = push_flushes(rows.drop_last(), flushes.drop_last(), bin);
        match flushes.last() {
            Some(f) if rows.last().bin == bin => before.push(f),
            _ => before,
        }
    }
}

/// What finishing handed out for one bin.
pub open spec fn end_flushes(ends: Seq<BinEnd>, bin: u16) -> Seq<Flush>
    decreases ends.len(),
{
    if ends.len() == 0 {
        Seq::empty()
    } else {
        let before = end_flushes(ends.drop_last(), bin);
        match ends.last().flush {
            Some(f) if ends.last().bin == bin => before.push(f),
            _ => before,
        }
    }
}

/// All rows that are handed out, one behind the other.
pub open spec fn flushed_rows(flushes: Seq<Flush>) -> Seq<OutputRow>
    decreases flushes.len(),
{
    if flushes.len() == 0 {
        Seq::empty()
    } else {
        flushed_rows(flushes.drop_last()) + flushes.last().rows@
    }
}

/// The writers go through `states` while the rows are pushed, from writers without rows on,
/// and hand out `flushes`.
pub open spec fn is_run(
    states: Seq<BinWriters>,
    rows: Seq<BinnedRow>,
    flushes: Seq<Option<Flush>>,
) -> bool {
    &&& states.len() == rows.len() + 1
    &&& flushes.len() == rows.len()
    &&& states[0].is_new()
    &&& forall|i: int|
        #![trigger rows[i]]
        0 <= i < rows.len() ==> states[i].pushes(rows[i], states[i + 1], flushes[i])
}

/// The first flush of a bin opens its part, which has the number 1, and no other one does.
pub open spec fn opens_once(flushes: Seq<Flush>) -> bool {
    forall|j: int|
        0 <= j < flushes.len() ==> (#[trigger] flushes[j]).open_part == (if j == 0 {
            Some(1u64)
        } else {
            None
        })
}

/// Every flush but the last is full, and the last is not empty.
pub open spec fn full_but_last(flushes: Seq<Flush>) -> bool {
    forall|j: int|
        0 <= j < flushes.len() ==> {
            &&& 0 < (#[trigger] flushes[j]).rows@.len() <= OUTPUT_BATCH_SIZE
            &&& j < flushes.len() - 1 ==> flushes[j].rows@.len() == OUTPUT_BATCH_SIZE
        }
}

/// A run that is finished writes the rows of every bin, in their order and each once.
///
/// What is handed out for a bin, one flush behind the other, is the rows that were pushed for
/// it. Its one part is opened with the first flush and closed at the end; a bin without rows
/// has no flush and no part.
pub proof fn law_bins_written(
    states: Seq<BinWriters>,
    rows: Seq<BinnedRow>,
    flushes: Seq<Option<Flush>>,
    ends: Seq<BinEnd>,
    bin: u16,
)
    requires
        is_run(states, rows, flushes),
        states.last().finishes(ends),
    ensures
        ({
            let all = push_flushes(rows, flushes, bin) + end_flushes(ends, bin);
            &&& flushed_rows(all) == bin_rows(rows, bin)
            &&& opens_once(all)
            &&& full_but_last(all)
            &&& all.len() == 0 <==> bin_rows(rows, bin).len() == 0
        }),
        forall|i: int, j: int|
            0 <= i < j < ends.len() ==> (#[trigger] ends[i]).bin != (#[trigger] ends[j]).bin,
        forall|i: int| 0 <= i < ends.len() ==> (#[trigger] ends[i]).close,
        bin_rows(rows, bin).len() > 0 <==> exists|i: int|
            0 <= i < ends.len() && (#[trigger] ends[i]).bin == bin,
{
    let n = rows.len() as int;
    let last = states[n];
    lemma_run(states, rows, flushes, n, bin);
    assert(rows.take(n) =~= rows);
    assert(flushes.take(n) =~= flushes);
    let pushed = push_flushes(rows, flushes, bin);
    lemma_end_flushes(last, ends, ends.len() as int, bin);
    assert(ends.take(ends.len() as int) =~= ends);
    let tail = end_flushes(ends, bin);
    let all = pushed + tail;
    if tail.len() == 0 {
        assert(all =~= pushed);
        assert(last.waiting(bin) =~= Seq::<OutputRow>::empty());
        assert(flushed_rows(pushed) + last.waiting(bin) =~= flushed_rows(pushed));
    } else {
        assert(all.drop_last() =~= pushed);
        assert(all.last() == tail[0]);
    }
    assert forall|j: int| 0 <= j < all.len() implies (#[trigger] all[j]).open_part == (if j == 0 {
        Some(1u64)
    } else {
        None
    }) by {
        if j < pushed.len() {
            assert(all[j] == pushed[j]);
        } else {
            assert(all[j] == tail[0]);
        }
    }
    assert forall|j: int| 0 <= j < all.len() implies {
        &&& 0 < (#[trigger] all[j]).rows@.len() <= OUTPUT_BATCH_SIZE
        &&& j < all.len() - 1 ==> all[j].rows@.len() == OUTPUT_BATCH_SIZE
    } by {
        if j < pushed.len() {
            assert(all[j] == pushed[j]);
        } else {
            assert(all[j] == tail[0]);
        }
    }
    assert forall|i: int| 0 <= i < ends.len() implies (#[trigger] ends[i]).close by {
        let b = last.bins()[i];
        assert(last.bins().contains(b));
        lemma_run(states, rows, flushes, n, b);
        let f = push_flushes(rows, flushes, b);
        if f.len() == 0 {
            assert(flushed_rows(f) + last.waiting(b) =~= last.waiting(b));
        }
    }
    if bin_rows(rows, bin).len() > 0 {
        let i = choose|i: int| 0 <= i < last.bins().len() && last.bins()[i] == bin;
        assert(ends[i].bin == bin);
    }
    if exists|i: int| 0 <= i < ends.len() && (#[trigger] ends[i]).bin == bin {
        let i = choose|i: int| 0 <= i < ends.len() && (#[trigger] ends[i]).bin == bin;
        assert(last.bins()[i] == bin);
    }
    if all.len() > 0 {
        lemma_flushed_len(all);
    }
}

/// The parts of a bin are numbered from 1 without a gap: rows go to the part that is open, else
/// to a part with the next number.
pub proof fn law_part_numbers(w: BinWriter)
    requires
        w.is_open() || w.parts() < u64::MAX,
    ensures
        w.is_open() ==> w.next_part() is None && w.parts_then() == w.parts(),
        !w.is_open() ==> w.next_part() == Some(w.parts_then()) && w.parts_then() == w.parts() + 1,
{
}

/// The texts that stand for one bin, in their order, where text `i` stands for `bins[i]`.
pub open spec fn bin_texts(texts: Seq<OutputText>, bins: Seq<u16>, bin: u16) -> Seq<OutputText>
    decreases texts.len(),
{
    if texts.len() == 0 {
        Seq::empty()
    } else {
        let before = bin_texts(texts.drop_last(), bins.drop_last(), bin);
        if bins.last() == bin {
            before.push(texts.last())
        } else {
            before
        }
    }
}

/// What is written for a bin is, of the output of all candidates, that of the rows whose seeds
/// have this bin.
pub proof fn law_bin_of_output(
    rows: Seq<BinnedRow>,
    texts: Seq<OutputText>,
    bins: Seq<u16>,
    bin: u16,
)
    requires
        binned_view(rows) == texts,
        bins.len() == rows.len(),
        forall|i: int| 0 <= i < rows.len() ==> (#[trigger] rows[i]).bin == bins[i],
    ensures
        bin_rows(rows, bin).map_values(|r: OutputRow| r@) == bin_texts(texts, bins, bin),
    decreases rows.len(),
{
    let view = |r: OutputRow| r@;
    assert(texts.len() == rows.len());
    if rows.len() > 0 {
        let before = rows.drop_last();
        assert(rows[rows.len() - 1].bin == bins.last());
        assert(texts.last() == rows.last().row@);
        assert(binned_view(before) =~= texts.drop_last());
        assert forall|i: int| 0 <= i < before.len() implies (#[trigger] before[i]).bin
            == bins.drop_last()[i] by {
            assert(before[i] == rows[i]);
        }
        law_bin_of_output(before, texts.drop_last(), bins.drop_last(), bin);
        assert(bin_rows(before, bin).push(rows.last().row).map_values(view) =~= bin_rows(
            before,
            bin,
        ).map_values(view).push(rows.last().row@));
    }
    assert(bin_rows(rows, bin).map_values(view) =~= bin_texts(texts, bins, bin));
}

/// After `n` pushes: what was handed out for a bin and what waits are its rows, what was handed
/// out is full, and its part is open just where something was.
proof fn lemma_run(
    states: Seq<BinWriters>,
    rows: Seq<BinnedRow>,
    flushes: Seq<Option<Flush>>,
    n: int,
    bin: u16,
)
    requires
        is_run(states, rows, flushes),
        0 <= n <= rows.len(),
    ensures
        ({
            let f = push_flushes(rows.take(n), flushes.take(n), bin);
            let all = bin_rows(rows.take(n), bin);
            &&& flushed_rows(f) + states[n].waiting(bin) == all
            &&& states[n].waiting(bin).len() < OUTPUT_BATCH_SIZE
            &&& states[n].is_open(bin) <==> f.len() > 0
            &&& opens_once(f)
            &&& forall|j: int|
                0 <= j < f.len() ==> (#[trigger] f[j]).rows@.len() == OUTPUT_BATCH_SIZE
            &&& states[n].bins().contains(bin) <==> all.len() > 0
            &&& states[n].bins().no_duplicates()
        }),
    decreases n,
{
    if n == 0 {
        assert(states[0].waiting(bin) == Seq::<OutputRow>::empty());
        assert(flushed_rows(Seq::empty()) + states[0].waiting(bin) =~= bin_rows(
            rows.take(0),
            bin,
        ));
    } else {
        lemma_run(states, rows, flushes, n - 1, bin);
        let b = rows[n - 1];
        let r = flushes[n - 1];
        let before = states[n - 1];
        let after = states[n];
        assert(before.pushes(b, after, r));
        assert(rows.take(n).drop_last() =~= rows.take(n - 1));
        assert(flushes.take(n).drop_last() =~= flushes.take(n - 1));
        let f0 = push_flushes(rows.take(n - 1), flushes.take(n - 1), bin);
        let f = push_flushes(rows.take(n), flushes.take(n), bin);
        assert(before.bins().push(b.bin).contains(bin) <==> before.bins().contains(bin) || bin
            == b.bin) by {
            let longer = before.bins().push(b.bin);
            assert(longer[before.bins().len() as int] == b.bin);
            if before.bins().contains(bin) {
                let k = choose|k: int| 0 <= k < before.bins().len() && before.bins()[k] == bin;
                assert(longer[k] == bin);
            }
        }
        if b.bin == bin {
            let waiting = before.waiting(bin);
            match r {
                Some(x) => {
                    assert(f =~= f0.push(x));
                    assert(f.drop_last() =~= f0);
                    assert(flushed_rows(f) =~= (flushed_rows(f0) + waiting).push(b.row));
                    assert(flushed_rows(f) + after.waiting(bin) =~= flushed_rows(f));
                },
                None => {
                    assert(flushed_rows(f0) + waiting.push(b.row) =~= (flushed_rows(f0)
                        + waiting).push(b.row));
                },
            }
        } else {
            assert(after.waiting(bin) == before.waiting(bin));
        }
    }
}

/// Among the first `n` ends there is a flush for a bin just where the bin is among them and rows
/// wait, and it has these rows.
proof fn lemma_end_flushes(last: BinWriters, ends: Seq<BinEnd>, n: int, bin: u16)
    requires
        last.finishes(ends),
        last.bins().no_duplicates(),
        0 <= n <= ends.len(),
        !last.bins().contains(bin) ==> last.waiting(bin).len() == 0,
    ensures
        ({
            let tail = end_flushes(ends.take(n), bin);
            let came = last.bins().take(n).contains(bin) && last.waiting(bin).len() > 0;
            &&& tail.len() == if came {
                1nat
            } else {
                0nat
            }
            &&& came ==> tail[0].rows@ == last.waiting(bin) && tail[0].open_part
                == last.next_part(bin)
        }),
        last.bins().take(last.bins().len() as int) == last.bins(),
    decreases n,
{
    assert(last.bins().take(last.bins().len() as int) =~= last.bins());
    if n > 0 {
        lemma_end_flushes(last, ends, n - 1, bin);
        let bins = last.bins();
        let end = ends[n - 1];
        let first = bins.take(n - 1);
        assert(ends.take(n).drop_last() =~= ends.take(n - 1));
        assert(bins.take(n) =~= first.push(end.bin));
        assert(bins.take(n).contains(bin) <==> first.contains(bin) || bin == end.bin) by {
            assert(bins.take(n)[n - 1] == end.bin);
            if first.contains(bin) {
                let k = choose|k: int| 0 <= k < first.len() && first[k] == bin;
                assert(bins.take(n)[k] == bin);
            }
        }
        if end.bin == bin && first.contains(bin) {
            let k = choose|k: int| 0 <= k < first.len() && first[k] == bin;
            assert(bins[k] == bins[n - 1]);
        }
    }
}

/// Flushes that are not empty hand out at least one row.
proof fn lemma_flushed_len(flushes: Seq<Flush>)
    requires
        flushes.len() > 0,
        full_but_last(flushes),
    ensures
        flushed_rows(flushes).len() > 0,
{
    assert(flushes[flushes.len() - 1].rows@.len() > 0);
}

} // verus!
