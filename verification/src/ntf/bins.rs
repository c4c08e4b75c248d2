//! The output by bins: the rows of each bin are written to a directory of its own, many at a
//! time.

use std::collections::HashMap;

use vstd::prelude::*;
use vstd::string::{StrSliceExecFns, StringExecFns};

use crate::ntf::traverse::{BinnedRow, OutputRow};

verus! {

/// The number of rows that are written at once.
pub const OUTPUT_BATCH_SIZE: usize = 100_000;

/// Rows that are to be written at once, and the part that is to be opened first, if any.
pub struct Flush {
    pub open_part: Option<u64>,
    pub rows: Vec<OutputRow>,
}

/// The rows of one bin that are not written yet, and the part that they will be written to.
///
/// Its view is the rows that are not written yet.
pub struct BinWriter {
    rows: Vec<OutputRow>,
    part_idx: u64,
    is_open: bool,
}

impl View for BinWriter {
    type V = Seq<OutputRow>;

    closed spec fn view(&self) -> Seq<OutputRow> {
        self.rows@
    }
}

impl BinWriter {
    /// Fewer rows wait than are written at once, and they have a part: one is open, or there
    /// is a number left for the next.
    pub closed spec fn wf(&self) -> bool {
        self.rows@.len() < OUTPUT_BATCH_SIZE && (self.is_open || self.part_idx < u64::MAX)
    }

    /// The number of parts that were opened.
    pub closed spec fn parts(&self) -> u64 {
        self.part_idx
    }

    /// Whether the last part is still open.
    pub closed spec fn is_open(&self) -> bool {
        self.is_open
    }

    /// The part to open before rows are written: the next one, where none is open.
    pub open spec fn next_part(&self) -> Option<u64> {
        if self.is_open() {
            None
        } else {
            Some((self.parts() + 1) as u64)
        }
    }

    /// The number of parts that were opened, once rows are written.
    pub open spec fn parts_then(&self) -> u64 {
        if self.is_open() {
            self.parts()
        } else {
            (self.parts() + 1) as u64
        }
    }

    /// A bin without rows.
    pub fn new() -> (r: BinWriter)
        ensures
            r.wf(),
            r@ == Seq::<OutputRow>::empty(),
            r.parts() == 0,
            !r.is_open(),
    {
        BinWriter { rows: Vec::new(), part_idx: 0, is_open: false }
    }

    /// Hands out the rows that wait.
    fn take_rows(&mut self) -> (r: Flush)
        requires
            old(self).is_open() || old(self).parts() < u64::MAX,
        ensures
            final(self).wf(),
            final(self)@ == Seq::<OutputRow>::empty(),
            final(self).is_open(),
            final(self).parts() == old(self).parts_then(),
            r.rows@ == old(self)@,
            r.open_part == old(self).next_part(),
    {
        let mut rows: Vec<OutputRow> = Vec::new();
        std::mem::swap(&mut rows, &mut self.rows);
        let mut open_part: Option<u64> = None;
        if !self.is_open {
            self.part_idx = self.part_idx + 1;
            self.is_open = true;
            open_part = Some(self.part_idx);
        }
        Flush { open_part, rows }
    }

    /// Adds a row; where enough rows wait, hands them out to be written.
    pub fn push(&mut self, row: OutputRow) -> (r: Option<Flush>)
        requires
            old(self).wf(),
        ensures
            final(self).wf(),
            r is Some <==> old(self)@.len() + 1 == OUTPUT_BATCH_SIZE,
            match r {
                Some(f) => {
                    &&& f.rows@ == old(self)@.push(row)
                    &&& f.open_part == old(self).next_part()
                    &&& final(self)@ == Seq::<OutputRow>::empty()
                    &&& final(self).is_open()
                    &&& final(self).parts() == old(self).parts_then()
                },
                None => {
                    &&& final(self)@ == old(self)@.push(row)
                    &&& final(self).is_open() == old(self).is_open()
                    &&& final(self).parts() == old(self).parts()
                },
            },
    {
        self.rows.push(row);
        if self.rows.len() >= OUTPUT_BATCH_SIZE {
            Some(self.take_rows())
        } else {
            None
        }
    }

    /// Hands out the rows that still wait, and tells whether a part is then to be closed. More
    /// rows may follow, in another part, as long as there is a number left for it.
    pub fn finish(&mut self) -> (r: (Option<Flush>, bool))
        requires
            old(self).wf(),
        ensures
            final(self).wf() <==> final(self).parts() < u64::MAX,
            final(self)@ == Seq::<OutputRow>::empty(),
            !final(self).is_open(),
            r.1 == (old(self).is_open() || old(self)@.len() > 0),
            match r.0 {
                Some(f) => {
                    &&& old(self)@.len() > 0
                    &&& f.rows@ == old(self)@
                    &&& f.open_part == old(self).next_part()
                    &&& final(self).parts() == old(self).parts_then()
                },
                None => old(self)@.len() == 0 && final(self).parts() == old(self).parts(),
            },
    {
        let mut flush: Option<Flush> = None;
        if self.rows.len() > 0 {
            flush = Some(self.take_rows());
        }
        assert(self.rows@ =~= Seq::<OutputRow>::empty());
        let close: bool = self.is_open;
        self.is_open = false;
        (flush, close)
    }
}

/// The writers of all bins.
pub struct BinWriters {
    bins: Vec<u16>,
    map: HashMap<u16, BinWriter>,
}

/// What is left to do for a bin: the rows that still wait, and whether its part is then to be
/// closed.
pub struct BinEnd {
    pub bin: u16,
    pub flush: Option<Flush>,
    pub close: bool,
}

impl BinWriters {
    /// The bins are those that have a writer, each once, and a part is opened for each before
    /// its first rows are written.
    pub closed spec fn wf(&self) -> bool {
        &&& self.bins@.no_duplicates()
        &&& forall|b: u16| #[trigger] self.map@.contains_key(b) <==> self.bins@.contains(b)
        &&& forall|b: u16| #[trigger]
            self.map@.contains_key(b) ==> self.map@[b].wf() && self.map@[b].parts() == (
            if self.map@[b].is_open() {
                1u64
            } else {
                0
            })
    }

    /// The bins that have rows, in the order of their first rows.
    pub closed spec fn bins(&self) -> Seq<u16> {
        self.bins@
    }

    /// The rows of a bin that are not written yet.
    pub closed spec fn waiting(&self, bin: u16) -> Seq<OutputRow> {
        if self.map@.contains_key(bin) {
            self.map@[bin]@
        } else {
            Seq::empty()
        }
    }

    /// Whether the part of a bin is open.
    pub closed spec fn is_open(&self, bin: u16) -> bool {
        self.map@.contains_key(bin) && self.map@[bin].is_open()
    }

    /// The part of a bin to open before rows are written, if any.
    pub open spec fn next_part(&self, bin: u16) -> Option<u64> {
        if self.is_open(bin) {
            None
        } else {
            Some(1)
        }
    }

    /// No bin has rows.
    pub open spec fn is_new(&self) -> bool {
        &&& self.bins() == Seq::<u16>::empty()
        &&& forall|b: u16| #[trigger]
            self.waiting(b) == Seq::<OutputRow>::empty() && !self.is_open(b)
    }

    /// Pushing `b` leads to `after` and hands out `r`: the row waits with those of its bin, or
    /// they are handed out with it, because they are enough to be written. The other bins stay
    /// as they are.
    pub open spec fn pushes(&self, b: BinnedRow, after: BinWriters, r: Option<Flush>) -> bool {
        &&& after.bins() == (if self.bins().contains(b.bin) {
            self.bins()
        } else {
            self.bins().push(b.bin)
        })
        &&& r is Some <==> self.waiting(b.bin).len() + 1 == OUTPUT_BATCH_SIZE
        &&& match r {
            Some(f) => {
                &&& f.rows@ == self.waiting(b.bin).push(b.row)
                &&& f.open_part == self.next_part(b.bin)
                &&& after.waiting(b.bin) == Seq::<OutputRow>::empty()
                &&& after.is_open(b.bin)
            },
            None => {
                &&& after.waiting(b.bin) == self.waiting(b.bin).push(b.row)
                &&& after.is_open(b.bin) == self.is_open(b.bin)
            },
        }
        &&& forall|o: u16|
            o != b.bin ==> #[trigger] after.waiting(o) == self.waiting(o) && after.is_open(o)
                == self.is_open(o)
    }

    /// Finishing hands out `ends`: for each bin the rows that still wait, if any, and whether
    /// its part is then to be closed.
    pub open spec fn finishes(&self, ends: Seq<BinEnd>) -> bool {
        &&& ends.len() == self.bins().len()
        &&& forall|i: int|
            0 <= i < ends.len() ==> {
                let end = #[trigger] ends[i];
                let rows = self.waiting(self.bins()[i]);
                &&& end.bin == self.bins()[i]
                &&& end.flush is Some <==> rows.len() > 0
                &&& end.flush matches Some(f) ==> f.rows@ == rows && f.open_part
                    == self.next_part(end.bin)
                &&& end.close == (self.is_open(end.bin) || rows.len() > 0)
            }
    }

    /// No bin has rows.
    pub fn new() -> (r: BinWriters)
        ensures
            r.wf(),
            r.is_new(),
    {
        BinWriters { bins: Vec::new(), map: HashMap::new() }
    }

    /// Adds a row to its bin; where enough rows of the bin wait, hands them out to be written.
    pub fn push(&mut self, b: BinnedRow) -> (r: Option<Flush>)
        requires
            old(self).wf(),
        ensures
            final(self).wf(),
            old(self).pushes(b, *final(self), r),
    {
        broadcast use vstd::std_specs::hash::group_hash_axioms;

        let ghost bins0 = self.bins@;
        let mut w = match self.map.remove(&b.bin) {
            Some(w) => w,
            None => {
                self.bins.push(b.bin);
                BinWriter::new()
            },
        };
        proof {
            assert forall|o: u16| #[trigger] self.bins@.contains(o) <==> bins0.contains(o) || o
                == b.bin by {
                if bins0.contains(o) {
                    let k = choose|k: int| 0 <= k < bins0.len() && bins0[k] == o;
                    assert(self.bins@[k] == o);
                }
                if o == b.bin && !bins0.contains(o) {
                    assert(self.bins@[bins0.len() as int] == o);
                }
                if self.bins@.contains(o) {
                    let k = choose|k: int| 0 <= k < self.bins@.len() && self.bins@[k] == o;
                    if k < bins0.len() {
                        assert(bins0[k] == o);
                    }
                }
            }
        }
        let flush = w.push(b.row);
        self.map.insert(b.bin, w);
        flush
    }

    /// Hands out the rows that still wait, bin by bin.
    pub fn finish(self) -> (r: Vec<BinEnd>)
        requires
            self.wf(),
        ensures
            self.finishes(r@),
    {
        broadcast use vstd::std_specs::hash::group_hash_axioms;

        let mut map = self.map;
        let mut out: Vec<BinEnd> = Vec::new();
        let mut i: usize = 0;
        while i < self.bins.len()
            invariant
                i <= self.bins@.len(),
                self.wf(),
                out@.len() == i,
                forall|k: int|
                    #![trigger self.bins@[k]]
                    i <= k < self.bins@.len() ==> map@.contains_key(self.bins@[k])
                        && map@[self.bins@[k]] == self.map@[self.bins@[k]],
                forall|k: int|
                    0 <= k < i ==> {
                        let end = #[trigger] out@[k];
                        let rows = self.waiting(self.bins@[k]);
                        &&& end.bin == self.bins@[k]
                        &&& end.flush is Some <==> rows.len() > 0
                        &&& end.flush matches Some(f) ==> f.rows@ == rows && f.open_part
                            == self.next_part(end.bin)
                        &&& end.close == (self.is_open(end.bin) || rows.len() > 0)
                    },
            decreases self.bins@.len() - i,
        {
            broadcast use vstd::std_specs::hash::group_hash_axioms;

            let bin: u16 = self.bins[i];
            assert(self.bins@.contains(bin));
            assert(self.map@.contains_key(bin));
            let ghost before = map@;
            if let Some(mut w) = map.remove(&bin) {
                let (flush, close) = w.finish();
                out.push(BinEnd { bin, flush, close });
            }
            assert forall|k: int|
                #![trigger self.bins@[k]]
                i + 1 <= k < self.bins@.len() implies map@.contains_key(self.bins@[k])
                && map@[self.bins@[k]] == self.map@[self.bins@[k]] by {
                assert(self.bins@[k] != self.bins@[i as int]);
                assert(before.contains_key(self.bins@[k]));
            }
            i = i + 1;
        }
        out
    }
}

/// The decimal digits of a number.
pub open spec fn decimal(n: nat) -> Seq<char>
    decreases n,
{
    if n < 10 {
        seq![(0x30 + n) as char]
    } else {
        decimal(n / 10).push((0x30 + n % 10) as char)
    }
}

/// The character of a decimal digit.
fn digit_char(d: u64) -> (r: char)
    requires
        d < 10,
    ensures
        r == (0x30 + d) as char,
{
    match d {
        0 => '0',
        1 => '1',
        2 => '2',
        3 => '3',
        4 => '4',
        5 => '5',
        6 => '6',
        7 => '7',
        8 => '8',
        _ => '9',
    }
}

/// The decimal digits of a number, as a string.
fn push_decimal(out: &mut String, n: u64)
    ensures
        final(out)@ == old(out)@ + decimal(n as nat),
    decreases n,
{
    if n >= 10 {
        push_decimal(out, n / 10);
    }
    out.push(digit_char(n % 10));
    assert(out@ =~= old(out)@ + decimal(n as nat));
}

/// With zeros in front, up to the given length.
pub open spec fn padded(s: Seq<char>, len: nat) -> Seq<char> {
    if s.len() >= len {
        s
    } else {
        Seq::new((len - s.len()) as nat, |i: int| '0') + s
    }
}

/// The directory of a bin.
pub fn bin_dir(bin: u16) -> (r: String)
    ensures
        r@ == "bin="@ + decimal(bin as nat),
{
    let mut s = String::new();
    s.append("bin=");
    push_decimal(&mut s, bin as u64);
    assert(s@ =~= "bin="@ + decimal(bin as nat));
    s
}

/// The file of a part: its number has five digits or more.
pub fn part_file(part: u64) -> (r: String)
    ensures
        r@ == "part-"@ + padded(decimal(part as nat), 5) + ".parquet"@,
{
    let mut digits = String::new();
    push_decimal(&mut digits, part);
    assert(digits@ =~= decimal(part as nat));
    let n: usize = digits.as_str().unicode_len();
    let mut s = String::new();
    s.append("part-");
    let ghost start = s@;
    let mut k: usize = n;
    while k < 5
        invariant
            n <= k,
            k <= 5 || k == n,
            s@ == start + Seq::new((k - n) as nat, |i: int| '0'),
        decreases 5 - k,
    {
        s.push('0');
        assert(s@ =~= start + Seq::new((k + 1 - n) as nat, |i: int| '0'));
        k = k + 1;
    }
    s.append(digits.as_str());
    assert(s@ =~= "part-"@ + padded(decimal(part as nat), 5));
    s.append(".parquet");
    s
}

} // verus!
