//! The histogram of an image: each colour that occurs in it, with the number
//! of pixels that have it, in the order in which the colours first occur.

use crate::color::Rgb;
use crate::rank::{arranged, lemma_arranged, lemma_ranking_exists, rank_order, ranking};
use std::collections::HashMap;
use vstd::prelude::*;

verus! {

/// A colour and the number of pixels that have it.
pub type Entry = (Rgb<u8>, usize);

/// The colours of a list of entries.
pub open spec fn colors(entries: Seq<Entry>) -> Seq<Rgb<u8>> {
    Seq::new(entries.len(), |i: int| entries[i].0)
}

/// The counts of a list of entries.
pub open spec fn counts(entries: Seq<Entry>) -> Seq<u64> {
    Seq::new(entries.len(), |i: int| entries[i].1 as u64)
}

/// The sum of the counts of a list of entries.
pub open spec fn total(entries: Seq<Entry>) -> int
    decreases entries.len(),
{
    if entries.len() == 0 {
        0
    } else {
        total(entries.drop_last()) + entries.last().1
    }
}

/// The entries after one more pixel of colour `c`: its count goes up by one,
/// or, where it has none yet, it is added at the end with count one.
pub open spec fn bump(entries: Seq<Entry>, c: Rgb<u8>) -> Seq<Entry> {
    let known = colors(entries);
    if known.contains(c) {
        let i = known.index_of(c);
        entries.update(i, (c, (entries[i].1 + 1) as usize))
    } else {
        entries.push((c, 1usize))
    }
}

/// The histogram of a run of pixels, in the order of first occurrence.
pub open spec fn tally(pixels: Seq<Rgb<u8>>) -> Seq<Entry>
    decreases pixels.len(),
{
    if pixels.len() == 0 {
        Seq::empty()
    } else {
        bump(tally(pixels.drop_last()), pixels.last())
    }
}

/// The pixels of a buffer that holds red, green and blue of one pixel after
/// the other.
pub open spec fn pixels_of(buffer: Seq<u8>) -> Seq<Rgb<u8>> {
    Seq::new(
        (buffer.len() / 3) as nat,
        |i: int| Rgb([buffer[3 * i], buffer[3 * i + 1], buffer[3 * i + 2]]),
    )
}

/// How often `c` occurs among `pixels`.
pub open spec fn occurrences(pixels: Seq<Rgb<u8>>, c: Rgb<u8>) -> int
    decreases pixels.len(),
{
    if pixels.len() == 0 {
        0
    } else {
        occurrences(pixels.drop_last(), c) + if pixels.last() == c {
            1int
        } else {
            0int
        }
    }
}

/// The entries in the order of their ranking: by falling count, those of equal
/// count in the order they had.
pub open spec fn ranked(entries: Seq<Entry>) -> Seq<Entry> {
    arranged(entries, ranking(counts(entries)))
}

/// The ranked entries are the entries, each once, and no count is followed by
/// a larger one.
pub proof fn lemma_ranked(entries: Seq<Entry>)
    requires
        entries.len() <= usize::MAX,
    ensures
        ranked(entries).len() == entries.len(),
        forall|k: int| 0 <= k < entries.len() ==> ranked(entries).contains(#[trigger] entries[k]),
        forall|i: int| 0 <= i < entries.len() ==> entries.contains(#[trigger] ranked(entries)[i]),
        forall|i: int, j: int|
            0 <= i < j < entries.len() ==> ranked(entries)[i].1 >= ranked(entries)[j].1,
{
    let keys = counts(entries);
    let order = ranking(keys);
    lemma_ranking_exists(keys);
    lemma_arranged(entries, order);
    assert forall|i: int, j: int| 0 <= i < j < entries.len() implies ranked(entries)[i].1
        >= ranked(entries)[j].1 by {
        assert(crate::rank::precedes(keys, order[i] as int, order[j] as int));
    }
}

proof fn lemma_total_push(entries: Seq<Entry>, e: Entry)
    ensures
        total(entries.push(e)) == total(entries) + e.1,
{
    assert(entries.push(e).drop_last() =~= entries);
}

proof fn lemma_total_update(entries: Seq<Entry>, i: int, e: Entry)
    requires
        0 <= i < entries.len(),
    ensures
        total(entries.update(i, e)) == total(entries) - entries[i].1 + e.1,
    decreases entries.len(),
{
    let after = entries.update(i, e);
    if i == entries.len() - 1 {
        assert(after.drop_last() =~= entries.drop_last());
    } else {
        assert(after.drop_last() =~= entries.drop_last().update(i, e));
        lemma_total_update(entries.drop_last(), i, e);
    }
}

/// No count exceeds the sum of all counts.
proof fn lemma_count_below_total(entries: Seq<Entry>, i: int)
    requires
        0 <= i < entries.len(),
    ensures
        entries[i].1 <= total(entries),
        0 <= total(entries),
    decreases entries.len(),
{
    lemma_total_nonnegative(entries.drop_last());
    if i < entries.len() - 1 {
        lemma_count_below_total(entries.drop_last(), i);
    }
}

proof fn lemma_total_nonnegative(entries: Seq<Entry>)
    ensures
        0 <= total(entries),
    decreases entries.len(),
{
    if entries.len() > 0 {
        lemma_total_nonnegative(entries.drop_last());
    }
}

/// What `bump` does, told by the position of the colour.
proof fn lemma_bump(entries: Seq<Entry>, c: Rgb<u8>)
    requires
        colors(entries).no_duplicates(),
    ensures
        forall|i: int|
            0 <= i < entries.len() && entries[i].0 == c ==> bump(entries, c) == entries.update(
                i,
                (c, (entries[i].1 + 1) as usize),
            ),
        (forall|i: int| 0 <= i < entries.len() ==> entries[i].0 != c) ==> bump(entries, c)
            == entries.push((c, 1usize)),
        colors(bump(entries, c)).no_duplicates(),
        colors(bump(entries, c)).contains(c),
        total(entries) < usize::MAX ==> total(bump(entries, c)) == total(entries) + 1,
{
    let known = colors(entries);
    let after = bump(entries, c);
    if known.contains(c) {
        let k = known.index_of(c);
        assert(known[k] == c);
        assert forall|i: int| 0 <= i < entries.len() && entries[i].0 == c implies i == k by {
            assert(known[i] == c);
        }
        assert(colors(after) =~= known);
        if total(entries) < usize::MAX {
            lemma_count_below_total(entries, k);
            lemma_total_update(entries, k, (c, (entries[k].1 + 1) as usize));
        }
    } else {
        assert forall|i: int| 0 <= i < entries.len() implies entries[i].0 != c by {
            assert(known[i] == entries[i].0);
        }
        assert(colors(after) =~= known.push(c));
        assert(colors(after)[entries.len() as int] == c);
        lemma_total_push(entries, (c, 1usize));
    }
}

/// No colour occurs twice in a histogram, and every colour of the pixels
/// occurs in it.
pub proof fn lemma_tally_colors(pixels: Seq<Rgb<u8>>)
    ensures
        colors(tally(pixels)).no_duplicates(),
        forall|i: int| 0 <= i < pixels.len() ==> colors(tally(pixels)).contains(pixels[i]),
        forall|c: Rgb<u8>| colors(tally(pixels)).contains(c) ==> pixels.contains(c),
    decreases pixels.len(),
{
    if pixels.len() > 0 {
        let rest = pixels.drop_last();
        let c = pixels.last();
        lemma_tally_colors(rest);
        lemma_bump(tally(rest), c);
        let before = colors(tally(rest));
        let after = colors(tally(pixels));
        assert forall|i: int| 0 <= i < pixels.len() implies after.contains(pixels[i]) by {
            if i < pixels.len() - 1 {
                assert(before.contains(rest[i]));
                let k = before.index_of(rest[i]);
                assert(after[k] == rest[i]);
            }
        }
        assert forall|d: Rgb<u8>| after.contains(d) implies pixels.contains(d) by {
            let k = choose|k: int| 0 <= k < after.len() && after[k] == d;
            if d == c {
                assert(pixels[pixels.len() - 1] == c);
            } else {
                assert(before[k] == d);
                assert(rest.contains(d));
                let m = choose|m: int| 0 <= m < rest.len() && rest[m] == d;
                assert(pixels[m] == d);
            }
        }
    }
}

/// The counts of a histogram add up to the number of pixels.
pub proof fn lemma_tally_total(pixels: Seq<Rgb<u8>>)
    requires
        pixels.len() <= usize::MAX,
    ensures
        total(tally(pixels)) == pixels.len(),
    decreases pixels.len(),
{
    if pixels.len() > 0 {
        lemma_tally_total(pixels.drop_last());
        lemma_tally_colors(pixels.drop_last());
        lemma_bump(tally(pixels.drop_last()), pixels.last());
    }
}

/// The count that a histogram holds for a colour is the number of pixels
/// that have it.
pub proof fn lemma_tally_counts(pixels: Seq<Rgb<u8>>, i: int)
    requires
        pixels.len() <= usize::MAX,
        0 <= i < tally(pixels).len(),
    ensures
        tally(pixels)[i].1 == occurrences(pixels, tally(pixels)[i].0),
        tally(pixels)[i].1 > 0,
    decreases pixels.len(),
{
    if pixels.len() > 0 {
        let rest = pixels.drop_last();
        let c = pixels.last();
        let before = tally(rest);
        lemma_tally_colors(rest);
        lemma_tally_total(rest);
        lemma_bump(before, c);
        if i < before.len() {
            lemma_tally_counts(rest, i);
            lemma_count_below_total(before, i);
            assert(colors(before)[i] == before[i].0);
        } else {
            lemma_absent(rest, c);
        }
    }
}

/// A colour that no pixel has occurs zero times.
proof fn lemma_absent(pixels: Seq<Rgb<u8>>, c: Rgb<u8>)
    requires
        !colors(tally(pixels)).contains(c),
    ensures
        occurrences(pixels, c) == 0,
    decreases pixels.len(),
{
    if pixels.len() > 0 {
        let rest = pixels.drop_last();
        lemma_tally_colors(pixels);
        assert(colors(tally(pixels)).contains(pixels[pixels.len() - 1]));
        lemma_tally_colors(rest);
        lemma_bump(tally(rest), pixels.last());
        if colors(tally(rest)).contains(c) {
            let k = colors(tally(rest)).index_of(c);
            assert(colors(tally(pixels))[k] == c);
        }
        lemma_absent(rest, c);
    }
}

/// The colours of an image with their counts.
#[derive(Clone, Debug)]
pub struct ColorHistogram {
    entries: Vec<Entry>,
    index: HashMap<u32, usize>,
}

impl View for ColorHistogram {
    type V = Seq<Entry>;

    /// The entries, in the order in which the colours first occurred.
    closed spec fn view(&self) -> Seq<Entry> {
        self.entries@
    }
}

impl ColorHistogram {
    /// No colour has two entries, and the index finds each entry by its colour.
    pub closed spec fn wf(&self) -> bool {
        &&& colors(self.entries@).no_duplicates()
        &&& forall|i: int|
            0 <= i < self.entries.len() ==> #[trigger] self.index@.contains_key(
                self.entries[i].0.spec_key() as u32,
            ) && self.index@[self.entries[i].0.spec_key() as u32] == i
        &&& forall|k: u32|
            self.index@.contains_key(k) ==> self.index@[k] < self.entries.len()
                && self.entries[self.index@[k] as int].0.spec_key() == k
    }

    /// In a histogram no colour has two entries.
    pub proof fn lemma_distinct(&self)
        requires
            self.wf(),
        ensures
            colors(self@).no_duplicates(),
    {
    }

    /// The histogram of no pixels.
    pub fn new() -> (hist: ColorHistogram)
        ensures
            hist.wf(),
            hist@ == Seq::<Entry>::empty(),
    {
        ColorHistogram { entries: Vec::new(), index: HashMap::new() }
    }

    /// Counts one more pixel of colour `c`.
    pub fn record(&mut self, c: Rgb<u8>)
        requires
            old(self).wf(),
            total(old(self)@) < usize::MAX,
            old(self)@.len() < usize::MAX,
        ensures
            final(self).wf(),
            final(self)@ == bump(old(self)@, c),
    {
        broadcast use vstd::std_specs::hash::group_hash_axioms;

        let key = c.key();
        let ghost before = self.entries@;
        proof {
            lemma_bump(before, c);
            assert forall|i: int| 0 <= i < before.len() implies (before[i].0 == c
                <==> before[i].0.spec_key() == key) by {
                before[i].0.lemma_key_injective(c);
            }
            c.lemma_key_injective(c);
        }
        let found = match self.index.get(&key) {
            Some(at) => Some(*at),
            None => None,
        };
        match found {
            Some(at) => {
                let count = self.entries[at].1;
                proof {
                    lemma_count_below_total(before, at as int);
                    assert(before[at as int].0.spec_key() == key);
                    assert(before[at as int].0 == c);
                }
                self.entries.set(at, (c, count + 1));
                proof {
                    assert(colors(self.entries@) =~= colors(before));
                    assert forall|i: int| 0 <= i < self.entries.len() implies #[trigger]
                        self.index@.contains_key(self.entries[i].0.spec_key() as u32)
                        && self.index@[self.entries[i].0.spec_key() as u32] == i by {
                        assert(self.entries[i].0 == before[i].0);
                        assert(old(self).index@.contains_key(before[i].0.spec_key() as u32));
                    }
                    assert forall|k: u32| self.index@.contains_key(k) implies self.index@[k]
                        < self.entries.len() && self.entries[self.index@[k] as int].0.spec_key()
                        == k by {
                        assert(self.entries[self.index@[k] as int].0 == before[self.index@[k] as int].0);
                    }
                }
            },
            None => {
                proof {
                    assert forall|i: int| 0 <= i < before.len() implies before[i].0 != c by {
                        assert(self.index@.contains_key(before[i].0.spec_key() as u32));
                    }
                }
                let at = self.entries.len();
                self.entries.push((c, 1));
                self.index.insert(key, at);
                proof {
                    assert(colors(self.entries@) =~= colors(before).push(c));
                    assert forall|i: int| 0 <= i < self.entries.len() implies #[trigger]
                        self.index@.contains_key(self.entries[i].0.spec_key() as u32)
                        && self.index@[self.entries[i].0.spec_key() as u32] == i by {
                        if i < before.len() {
                            assert(old(self).index@.contains_key(before[i].0.spec_key() as u32));
                        }
                    }
                }
            },
        }
    }

    /// The number of colours.
    pub fn len(&self) -> (n: usize)
        ensures
            n == self@.len(),
    {
        self.entries.len()
    }

    /// The entries, in the order in which the colours first occurred.
    pub fn entries(&self) -> (entries: &Vec<Entry>)
        ensures
            entries@ == self@,
    {
        &self.entries
    }

    /// The number of pixels of colour `c`.
    pub fn count(&self, c: Rgb<u8>) -> (n: usize)
        requires
            self.wf(),
        ensures
            colors(self@).contains(c) ==> n == self@[colors(self@).index_of(c)].1,
            !colors(self@).contains(c) ==> n == 0,
    {
        broadcast use vstd::std_specs::hash::group_hash_axioms;

        let key = c.key();
        proof {
            assert forall|i: int| 0 <= i < self.entries.len() implies (self.entries[i].0 == c
                <==> self.entries[i].0.spec_key() == key) by {
                self.entries[i].0.lemma_key_injective(c);
            }
            c.lemma_key_injective(c);
            if colors(self@).contains(c) {
                let k = colors(self@).index_of(c);
                assert(colors(self@)[k] == c);
                assert(self.index@.contains_key(self.entries[k].0.spec_key() as u32));
            }
        }
        match self.index.get(&key) {
            Some(at) => {
                proof {
                    assert(colors(self@)[*at as int] == c);
                }
                self.entries[*at].1
            },
            None => 0,
        }
    }

    /// The histogram of a buffer of `width` times `height` pixels, each of
    /// them red, green and blue in this order; nothing where the buffer has
    /// another length.
    pub fn from_pixels(buffer: &[u8], width: u32, height: u32) -> (hist: Option<ColorHistogram>)
        ensures
            hist.is_some() <==> buffer@.len() == 3 * width * height,
            hist matches Some(h) ==> h.wf() && h@ == tally(pixels_of(buffer@)) && total(h@)
                == width * height,
    {
        assert(width * height <= 0xffff_ffff * 0xffff_ffff && 3 * width * height == 3 * (width
            * height)) by (nonlinear_arith)
            requires
                width <= 0xffff_ffff,
                height <= 0xffff_ffff,
        ;
        let n: u64 = (width as u64) * (height as u64);
        if buffer.len() as u128 != 3 * (n as u128) {
            return None;
        }
        let ghost pixels = pixels_of(buffer@);
        let count: usize = buffer.len() / 3;
        let mut hist = ColorHistogram::new();
        let mut k: usize = 0;
        assert(pixels.take(0) =~= Seq::<Rgb<u8>>::empty());
        while k < count
            invariant
                k <= count,
                count == pixels.len(),
                buffer@.len() == 3 * count,
                buffer@.len() <= usize::MAX,
                pixels == pixels_of(buffer@),
                hist.wf(),
                hist@ == tally(pixels.take(k as int)),
            decreases count - k,
        {
            let c = Rgb([buffer[3 * k], buffer[3 * k + 1], buffer[3 * k + 2]]);
            proof {
                let seen = pixels.take(k as int);
                lemma_tally_total(seen);
                lemma_tally_colors(seen);
                assert(pixels.take(k + 1).drop_last() =~= seen);
                assert(pixels.take(k + 1).last() == pixels[k as int]);
                assert(c.0 =~= pixels[k as int].0);
                lemma_tally_len(seen);
            }
            hist.record(c);
            k += 1;
        }
        proof {
            assert(pixels.take(count as int) =~= pixels);
            lemma_tally_total(pixels);
        }
        Some(hist)
    }

    /// The entries by falling count, those of equal count in the order in
    /// which their colours first occurred.
    pub fn ranked(&self) -> (out: Vec<Entry>)
        ensures
            out@ == ranked(self@),
    {
        rank_entries(&self.entries)
    }
}

/// A histogram has no more entries than there are pixels.
proof fn lemma_tally_len(pixels: Seq<Rgb<u8>>)
    ensures
        tally(pixels).len() <= pixels.len(),
    decreases pixels.len(),
{
    if pixels.len() > 0 {
        lemma_tally_len(pixels.drop_last());
    }
}

/// The entries by falling count, those of equal count in the order they had.
pub fn rank_entries(entries: &Vec<Entry>) -> (out: Vec<Entry>)
    ensures
        out@ == ranked(entries@),
{
    let mut keys: Vec<u64> = Vec::new();
    let mut i: usize = 0;
    while i < entries.len()
        invariant
            i <= entries.len(),
            keys@ == counts(entries@).take(i as int),
        decreases entries.len() - i,
    {
        keys.push(entries[i].1 as u64);
        assert(keys@ =~= counts(entries@).take(i + 1));
        i += 1;
    }
    assert(keys@ =~= counts(entries@));
    let order = rank_order(&keys);
    let mut out: Vec<Entry> = Vec::new();
    let mut j: usize = 0;
    while j < order.len()
        invariant
            j <= order.len(),
            order.len() == entries.len(),
            forall|m: int| 0 <= m < order.len() ==> order[m] < entries.len(),
            out@ == arranged(entries@, order@).take(j as int),
        decreases order.len() - j,
    {
        out.push(entries[order[j]]);
        assert(out@ =~= arranged(entries@, order@).take(j + 1));
        j += 1;
    }
    assert(out@ =~= arranged(entries@, order@));
    out
}

} // verus!
