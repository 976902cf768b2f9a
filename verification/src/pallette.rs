//! The palette of an image: the most frequent colours of its histogram that
//! keep a least distance from one another, and what a user may do to them.

use crate::color::{contains_color, hex_of, measure, measure_of, ColorUtil, Rgb, MIN_DISTANCE};
use crate::histogram::{colors, pixels_of, ranked, tally, total, ColorHistogram, Entry};
use crate::rank::{lemma_permutation, span};
use crate::random::shuffle;
use rand::rngs::StdRng;
use vstd::prelude::*;

verus! {

/// The measure of two colours at the distance `MIN_DISTANCE`.
pub const MIN_MEASURE: u32 = 204_800;

/// The size that a palette asks for before an image is loaded.
pub const DEFAULT_SIZE: usize = 16;

/// `c` keeps at least the measure `min` from each of `chosen`.
pub open spec fn separated(c: Rgb<u8>, chosen: Seq<Rgb<u8>>, min: int) -> bool {
    forall|i: int| 0 <= i < chosen.len() ==> measure(c, chosen[i]) >= min
}

/// The colours that are taken when the entries are gone through in order and
/// one is taken where fewer than `n` are taken yet and it keeps the measure
/// `min` from all that are.
pub open spec fn select_top(entries: Seq<Entry>, n: nat, min: int) -> Seq<Rgb<u8>>
    decreases entries.len(),
{
    if entries.len() == 0 {
        Seq::empty()
    } else {
        let taken = select_top(entries.drop_last(), n, min);
        let c = entries.last().0;
        if taken.len() < n && separated(c, taken, min) {
            taken.push(c)
        } else {
            taken
        }
    }
}

/// The number of entries that keep the measure `min` from every entry before
/// them.
pub open spec fn fresh_count(entries: Seq<Entry>, min: int) -> nat
    decreases entries.len(),
{
    if entries.len() == 0 {
        0
    } else {
        let before = entries.drop_last();
        if separated(entries.last().0, colors(before), min) {
            fresh_count(before, min) + 1
        } else {
            fresh_count(before, min)
        }
    }
}

/// Each of `hex` is the hex notation of the colour at its place in `rgb`.
pub open spec fn hexes_match(rgb: Seq<Rgb<u8>>, hex: Seq<String>) -> bool {
    &&& hex.len() == rgb.len()
    &&& forall|i: int| 0 <= i < rgb.len() ==> (#[trigger] hex[i])@ == hex_of(rgb[i])
}

/// The position `k` is one of an entry whose colour is not among `top`.
pub open spec fn is_unused(entries: Seq<Entry>, top: Seq<Rgb<u8>>, k: usize) -> bool {
    k < entries.len() && !top.contains(entries[k as int].0)
}

/// The colour of the first position in `order` that is one of an entry whose
/// colour is not among `top`.
pub open spec fn first_unused(entries: Seq<Entry>, top: Seq<Rgb<u8>>, order: Seq<usize>) -> Option<
    Rgb<u8>,
>
    decreases order.len(),
{
    if order.len() == 0 {
        None
    } else if is_unused(entries, top, order[0]) {
        Some(entries[order[0] as int].0)
    } else {
        first_unused(entries, top, order.drop_first())
    }
}

/// The colours with every colour equal to `original` replaced by `new_color`.
pub open spec fn replaced(rgb: Seq<Rgb<u8>>, original: Rgb<u8>, new_color: Rgb<u8>) -> Seq<
    Rgb<u8>,
> {
    Seq::new(
        rgb.len(),
        |i: int|
            if rgb[i] == original {
                new_color
            } else {
                rgb[i]
            },
    )
}

/// The least measure is that of the least distance.
pub proof fn lemma_min_measure()
    ensures
        MIN_MEASURE == measure_of(MIN_DISTANCE as int),
{
}

/// No more than `n` colours are selected.
pub proof fn lemma_select_top_len(entries: Seq<Entry>, n: nat, min: int)
    ensures
        select_top(entries, n, min).len() <= n,
        select_top(entries, n, min).len() <= entries.len(),
    decreases entries.len(),
{
    if entries.len() > 0 {
        lemma_select_top_len(entries.drop_last(), n, min);
    }
}

/// Every selected colour is the colour of an entry.
pub proof fn lemma_select_top_members(entries: Seq<Entry>, n: nat, min: int)
    ensures
        forall|i: int|
            0 <= i < select_top(entries, n, min).len() ==> colors(entries).contains(
                #[trigger] select_top(entries, n, min)[i],
            ),
    decreases entries.len(),
{
    if entries.len() > 0 {
        let before = entries.drop_last();
        lemma_select_top_members(before, n, min);
        let taken = select_top(before, n, min);
        let all = select_top(entries, n, min);
        assert forall|i: int| 0 <= i < all.len() implies colors(entries).contains(
            #[trigger] all[i],
        ) by {
            if i < taken.len() {
                assert(colors(before).contains(taken[i]));
                let k = colors(before).index_of(taken[i]);
                assert(colors(entries)[k] == taken[i]);
            } else {
                assert(colors(entries)[entries.len() - 1] == all[i]);
            }
        }
    }
}

/// Any two selected colours keep the measure `min` from each other.
pub proof fn lemma_select_top_separated(entries: Seq<Entry>, n: nat, min: int)
    ensures
        forall|i: int, j: int|
            0 <= i < j < select_top(entries, n, min).len() ==> measure(
                select_top(entries, n, min)[i],
                select_top(entries, n, min)[j],
            ) >= min && measure(select_top(entries, n, min)[j], select_top(entries, n, min)[i])
                >= min,
    decreases entries.len(),
{
    if entries.len() > 0 {
        let before = entries.drop_last();
        lemma_select_top_separated(before, n, min);
        let taken = select_top(before, n, min);
        let all = select_top(entries, n, min);
        assert forall|i: int, j: int| 0 <= i < j < all.len() implies measure(all[i], all[j]) >= min
            && measure(all[j], all[i]) >= min by {
            ColorUtil::lemma_distance_symmetric(all[i], all[j]);
            if j == taken.len() {
                assert(measure(all[j], taken[i]) >= min);
            }
        }
    }
}

/// Once as many colours are selected as were asked for, further entries
/// change nothing.
pub proof fn lemma_select_top_full(entries: Seq<Entry>, upto: int, n: nat, min: int)
    requires
        0 <= upto <= entries.len(),
        select_top(entries.take(upto), n, min).len() >= n,
    ensures
        select_top(entries, n, min) == select_top(entries.take(upto), n, min),
    decreases entries.len(),
{
    if upto < entries.len() {
        let before = entries.drop_last();
        assert(before.take(upto) =~= entries.take(upto));
        lemma_select_top_full(before, upto, n, min);
    } else {
        assert(entries.take(upto) =~= entries);
    }
}

/// Where at least `n` entries keep the measure `min` from every entry before
/// them, exactly `n` colours are selected; in any case at least as many as
/// there are such entries, up to `n`.
pub proof fn lemma_select_top_reaches(entries: Seq<Entry>, n: nat, min: int)
    ensures
        fresh_count(entries, min) >= n ==> select_top(entries, n, min).len() == n,
        fresh_count(entries, min) < n ==> select_top(entries, n, min).len() >= fresh_count(
            entries,
            min,
        ),
    decreases entries.len(),
{
    lemma_select_top_len(entries, n, min);
    if entries.len() > 0 {
        let before = entries.drop_last();
        lemma_select_top_reaches(before, n, min);
        lemma_select_top_len(before, n, min);
        lemma_select_top_members(before, n, min);
        let taken = select_top(before, n, min);
        let c = entries.last().0;
        if separated(c, colors(before), min) {
            assert forall|i: int| 0 <= i < taken.len() implies measure(c, taken[i]) >= min by {
                assert(colors(before).contains(taken[i]));
                let k = colors(before).index_of(taken[i]);
                assert(measure(c, colors(before)[k]) >= min);
            }
        }
    }
}

/// Where any two entries keep the measure `min` from each other, the first
/// `n` of them are selected, or all where there are fewer.
pub proof fn lemma_select_top_of_separated(entries: Seq<Entry>, n: nat, min: int)
    requires
        forall|i: int, j: int|
            0 <= i < j < entries.len() ==> measure(entries[j].0, entries[i].0) >= min,
    ensures
        fresh_count(entries, min) == entries.len(),
        select_top(entries, n, min).len() == if n <= entries.len() {
            n
        } else {
            entries.len()
        },
    decreases entries.len(),
{
    lemma_select_top_len(entries, n, min);
    lemma_select_top_reaches(entries, n, min);
    if entries.len() > 0 {
        let before = entries.drop_last();
        lemma_select_top_of_separated(before, n, min);
        assert forall|i: int| 0 <= i < colors(before).len() implies measure(
            entries.last().0,
            colors(before)[i],
        ) >= min by {
            assert(measure(entries[entries.len() - 1].0, entries[i].0) >= min);
        }
    }
}

/// What `first_unused` finds is the colour of an entry and not among `top`;
/// it finds one wherever `order` holds the position of such an entry.
pub proof fn lemma_first_unused(entries: Seq<Entry>, top: Seq<Rgb<u8>>, order: Seq<usize>)
    ensures
        first_unused(entries, top, order) matches Some(c) ==> colors(entries).contains(c)
            && !top.contains(c),
        first_unused(entries, top, order).is_none() <==> forall|i: int|
            0 <= i < order.len() ==> !is_unused(entries, top, #[trigger] order[i]),
    decreases order.len(),
{
    if order.len() > 0 {
        let rest = order.drop_first();
        lemma_first_unused(entries, top, rest);
        if is_unused(entries, top, order[0]) {
            assert(colors(entries)[order[0] as int] == entries[order[0] as int].0);
        } else {
            assert forall|i: int| 0 <= i < order.len() && is_unused(
                entries,
                top,
                #[trigger] order[i],
            ) implies !first_unused(entries, top, rest).is_none() by {
                assert(order[i] == rest[i - 1]);
            }
            if !first_unused(entries, top, rest).is_none() {
                let i = choose|i: int| 0 <= i < rest.len() && is_unused(entries, top, #[trigger] rest[i]);
                assert(order[i + 1] == rest[i]);
            }
        }
    }
}

/// The positions `0` to `n - 1` in rising order.
fn positions(n: usize) -> (order: Vec<usize>)
    ensures
        order@ == span(0, n as int),
{
    let mut order: Vec<usize> = Vec::new();
    let mut i: usize = 0;
    while i < n
        invariant
            i <= n,
            order@ == span(0, i as int),
        decreases n - i,
    {
        order.push(i);
        assert(order@ =~= span(0, i + 1));
        i += 1;
    }
    order
}

/// The hex notations of `rgb`.
fn hexes(rgb: &Vec<Rgb<u8>>) -> (hex: Vec<String>)
    ensures
        hexes_match(rgb@, hex@),
{
    let mut hex: Vec<String> = Vec::new();
    let mut i: usize = 0;
    while i < rgb.len()
        invariant
            i <= rgb.len(),
            hexes_match(rgb@.take(i as int), hex@),
        decreases rgb.len() - i,
    {
        hex.push(ColorUtil::rgb_to_hex(rgb[i]));
        i += 1;
    }
    assert(rgb@.take(rgb.len() as int) =~= rgb@);
    hex
}

/// The state of the palette editor.
#[derive(Clone, Debug)]
pub struct Pallette {
    /// The colours of the palette.
    pub top_rgb: Vec<Rgb<u8>>,
    /// Their hex notations.
    pub top_hex: Vec<String>,
    /// Where the image came from.
    pub current_path: Option<String>,
    /// The histogram of the image, ranked.
    pub all_entries: Vec<Entry>,
    /// The number of colours that the palette is to hold.
    pub pallette_size: usize,
}

impl Pallette {
    /// Each colour of the palette has its hex notation beside it.
    pub open spec fn wf(&self) -> bool {
        hexes_match(self.top_rgb@, self.top_hex@)
    }

    /// A palette with no image and no colours that asks for `DEFAULT_SIZE`
    /// colours.
    pub open spec fn is_blank(&self) -> bool {
        &&& self.top_rgb@.len() == 0
        &&& self.top_hex@.len() == 0
        &&& self.current_path.is_none()
        &&& self.all_entries@.len() == 0
        &&& self.pallette_size == DEFAULT_SIZE
    }

    /// A palette with no image and no colours.
    pub fn new() -> (p: Pallette)
        ensures
            p.is_blank(),
            p.wf(),
    {
        Pallette {
            top_rgb: Vec::new(),
            top_hex: Vec::new(),
            current_path: None,
            all_entries: Vec::new(),
            pallette_size: DEFAULT_SIZE,
        }
    }

    /// Whether each colour of the palette has its hex notation beside it.
    pub fn is_wf(&self) -> (ok: bool)
        ensures
            ok == self.wf(),
    {
        if self.top_hex.len() != self.top_rgb.len() {
            return false;
        }
        let mut i: usize = 0;
        while i < self.top_rgb.len()
            invariant
                i <= self.top_rgb.len(),
                self.top_hex.len() == self.top_rgb.len(),
                forall|j: int| 0 <= j < i ==> (#[trigger] self.top_hex[j])@ == hex_of(
                    self.top_rgb[j],
                ),
            decreases self.top_rgb.len() - i,
        {
            let hex = ColorUtil::rgb_to_hex(self.top_rgb[i]);
            if !(hex == self.top_hex[i]) {
                return false;
            }
            i += 1;
        }
        true
    }

    /// Whether the image at `path` is the one that the palette was made from.
    pub fn is_current(&self, path: &str) -> (same: bool)
        ensures
            same == (self.current_path matches Some(p) && p@ == path@),
    {
        match &self.current_path {
            Some(p) => {
                let owned = path.to_owned();
                *p == owned
            },
            None => false,
        }
    }

    /// Makes the palette of the image at `path`, whose pixels are those of
    /// `buffer`. Nothing happens where the palette was made from this path,
    /// or where `buffer` does not hold `width` times `height` pixels. Else the
    /// histogram is ranked, the palette asks for no more colours than there
    /// are, and the colours are selected anew.
    pub fn update(&mut self, path: &str, buffer: &[u8], width: u32, height: u32) -> (loaded: bool)
        requires
            old(self).wf(),
        ensures
            final(self).wf(),
            loaded == (!(old(self).current_path matches Some(p) && p@ == path@) && buffer@.len()
                == 3 * width * height),
            !loaded ==> *final(self) == *old(self),
            loaded ==> {
                &&& final(self).current_path matches Some(p) && p@ == path@
                &&& final(self).all_entries@ == ranked(tally(pixels_of(buffer@)))
                &&& total(tally(pixels_of(buffer@))) == width * height
                &&& final(self).top_rgb@ == select_top(
                    final(self).all_entries@,
                    if old(self).pallette_size <= final(self).all_entries@.len() {
                        old(self).pallette_size as nat
                    } else {
                        final(self).all_entries@.len()
                    },
                    MIN_MEASURE as int,
                )
                &&& final(self).pallette_size == final(self).top_rgb@.len()
            },
    {
        if self.is_current(path) {
            return false;
        }
        let hist = match Self::extract_pallete(buffer, width, height) {
            Some(hist) => hist,
            None => {
                return false;
            },
        };
        self.current_path = Some(path.to_owned());
        self.all_entries = Self::get_sorted_entries(&hist);
        if self.all_entries.len() < self.pallette_size {
            self.pallette_size = self.all_entries.len();
        }
        self.update_top_colors();
        true
    }

    /// Selects the colours anew, as many as the palette asks for, and lets
    /// it ask for as many as were found.
    pub fn update_top_colors(&mut self)
        ensures
            final(self).wf(),
            final(self).top_rgb@ == select_top(
                old(self).all_entries@,
                old(self).pallette_size as nat,
                MIN_MEASURE as int,
            ),
            final(self).pallette_size == final(self).top_rgb@.len(),
            final(self).all_entries == old(self).all_entries,
            final(self).current_path == old(self).current_path,
    {
        let (rgb, hex) = Self::get_top_colors(&self.all_entries, self.pallette_size);
        self.top_rgb = rgb;
        self.top_hex = hex;
        self.pallette_size = self.top_rgb.len();
    }

    /// The colour of the first of the positions in `order` that is one of an
    /// entry whose colour the palette does not hold.
    pub fn pick_unused(&self, order: &Vec<usize>) -> (found: Option<Rgb<u8>>)
        ensures
            found == first_unused(self.all_entries@, self.top_rgb@, order@),
    {
        let mut i: usize = 0;
        assert(order@.skip(0) =~= order@);
        while i < order.len()
            invariant
                i <= order.len(),
                first_unused(self.all_entries@, self.top_rgb@, order@) == first_unused(
                    self.all_entries@,
                    self.top_rgb@,
                    order@.skip(i as int),
                ),
            decreases order.len() - i,
        {
            let k = order[i];
            assert(order@.skip(i as int)[0] == k);
            assert(order@.skip(i as int).drop_first() =~= order@.skip(i + 1));
            if k < self.all_entries.len() {
                let c = self.all_entries[k].0;
                if !contains_color(&self.top_rgb, c) {
                    return Some(c);
                }
            }
            i += 1;
        }
        None
    }

    /// A colour of the histogram that the palette does not hold, picked by
    /// `rng`; none where the palette holds them all.
    pub fn get_unused_entry(&self, rng: &mut StdRng) -> (found: Option<Rgb<u8>>)
        ensures
            found matches Some(c) ==> colors(self.all_entries@).contains(c)
                && !self.top_rgb@.contains(c),
            found.is_none() <==> forall|i: int|
                0 <= i < self.all_entries@.len() ==> self.top_rgb@.contains(
                    #[trigger] self.all_entries@[i].0,
                ),
    {
        let mut order = positions(self.all_entries.len());
        shuffle(&mut order, rng);
        proof {
            lemma_permutation(order@, self.all_entries@.len());
            lemma_first_unused(self.all_entries@, self.top_rgb@, order@);
            let entries = self.all_entries@;
            let top = self.top_rgb@;
            if forall|i: int| 0 <= i < order@.len() ==> !is_unused(entries, top, #[trigger] order@[i]) {
                assert forall|i: int| 0 <= i < entries.len() implies top.contains(
                    #[trigger] entries[i].0,
                ) by {
                    assert(order@.contains(i as usize));
                    let k = choose|k: int| 0 <= k < order@.len() && order@[k] == i as usize;
                    assert(!is_unused(entries, top, order@[k]));
                }
            } else {
                let k = choose|k: int| 0 <= k < order@.len() && is_unused(entries, top, #[trigger] order@[k]);
                assert(!top.contains(entries[order@[k] as int].0));
            }
        }
        self.pick_unused(&order)
    }

    /// Puts a colour of the histogram that the palette does not hold, picked
    /// by `rng`, in the place `idx` of the palette. Nothing happens where the
    /// palette has no such place or holds all colours of the histogram.
    pub fn swap_top_color(&mut self, idx: usize, rng: &mut StdRng)
        requires
            old(self).wf(),
        ensures
            final(self).wf(),
            final(self).top_rgb@.len() == old(self).top_rgb@.len(),
            final(self).all_entries == old(self).all_entries,
            final(self).current_path == old(self).current_path,
            final(self).pallette_size == old(self).pallette_size,
            forall|i: int|
                0 <= i < old(self).top_rgb@.len() && i != idx ==> final(self).top_rgb@[i] == old(self).top_rgb@[i],
            idx < old(self).top_rgb@.len() && (exists|i: int|
                0 <= i < old(self).all_entries@.len() && !old(self).top_rgb@.contains(
                    #[trigger] old(self).all_entries@[i].0,
                )) ==> colors(old(self).all_entries@).contains(final(self).top_rgb@[idx as int])
                && !old(self).top_rgb@.contains(final(self).top_rgb@[idx as int]),
            idx >= old(self).top_rgb@.len() || (forall|i: int|
                0 <= i < old(self).all_entries@.len() ==> old(self).top_rgb@.contains(
                    #[trigger] old(self).all_entries@[i].0,
                )) ==> *final(self) == *old(self),
    {
        if idx >= self.top_rgb.len() {
            return ;
        }
        match self.get_unused_entry(rng) {
            Some(c) => {
                self.top_rgb.set(idx, c);
                self.top_hex.set(idx, ColorUtil::rgb_to_hex(c));
            },
            None => {},
        }
    }

    /// `after` is `self` made to hold `new_size` colours: unchanged where
    /// `new_size` is 0 or more than the histogram has colours; selected anew
    /// where it is to grow; cut to its first `new_size` colours else.
    pub open spec fn resized(&self, after: &Pallette, new_size: usize) -> bool {
        &&& after.all_entries == self.all_entries
        &&& after.current_path == self.current_path
        &&& if new_size == 0 || new_size > self.all_entries@.len() {
            *after == *self
        } else if new_size > self.top_rgb@.len() {
            &&& after.top_rgb@ == select_top(self.all_entries@, new_size as nat, MIN_MEASURE as int)
            &&& after.pallette_size == after.top_rgb@.len()
        } else {
            &&& after.top_rgb@ == self.top_rgb@.take(new_size as int)
            &&& after.pallette_size == new_size
        }
    }

    /// Lets the palette hold `new_size` colours. Nothing happens where
    /// `new_size` is 0 or more than the histogram has colours. A palette that
    /// is to grow is selected anew from the whole histogram; one that is to
    /// shrink keeps its first `new_size` colours.
    pub fn resize(&mut self, new_size: usize)
        requires
            old(self).wf(),
        ensures
            final(self).wf(),
            old(self).resized(final(self), new_size),
    {
        if new_size == 0 || new_size > self.all_entries.len() {
            return ;
        }
        if new_size > self.top_rgb.len() {
            self.pallette_size = new_size;
            self.update_top_colors();
        } else {
            self.top_rgb.truncate(new_size);
            self.top_hex.truncate(new_size);
            self.pallette_size = new_size;
        }
    }

    /// Lets the palette hold one colour less than it asks for, but not fewer
    /// than one.
    pub fn decrement_pallette_size(&mut self)
        requires
            old(self).wf(),
        ensures
            final(self).wf(),
            old(self).pallette_size <= 1 ==> *final(self) == *old(self),
            old(self).pallette_size > 1 ==> old(self).resized(
                final(self),
                (old(self).pallette_size - 1) as usize,
            ),
    {
        if self.pallette_size > 1 {
            self.resize(self.pallette_size - 1);
        }
    }

    /// Lets the palette hold one colour more than it asks for, but not more
    /// than the histogram has.
    pub fn increment_pallette_size(&mut self)
        requires
            old(self).wf(),
        ensures
            final(self).wf(),
            old(self).pallette_size >= old(self).all_entries@.len() ==> *final(self) == *old(self),
            old(self).pallette_size < old(self).all_entries@.len() ==> old(self).resized(
                final(self),
                (old(self).pallette_size + 1) as usize,
            ),
    {
        if self.pallette_size < self.all_entries.len() {
            self.resize(self.pallette_size + 1);
        }
    }

    /// Makes the palette blank again.
    pub fn reset(&mut self)
        ensures
            final(self).is_blank(),
            final(self).wf(),
    {
        self.top_rgb = Vec::new();
        self.top_hex = Vec::new();
        self.current_path = None;
        self.all_entries = Vec::new();
        self.pallette_size = DEFAULT_SIZE;
    }

    /// The entries of a histogram by falling count, those of equal count in
    /// the order in which their colours first occurred.
    pub fn get_sorted_entries(pallette: &ColorHistogram) -> (entries: Vec<Entry>)
        ensures
            entries@ == ranked(pallette@),
    {
        pallette.ranked()
    }

    /// Goes through the entries in order and takes a colour where fewer than
    /// `top_n` are taken yet and it keeps the measure `min_measure` from all
    /// that are. Returns the colours with their hex notations.
    pub fn select_top(entries: &Vec<Entry>, top_n: usize, min_measure: u32) -> (top: (
        Vec<Rgb<u8>>,
        Vec<String>,
    ))
        ensures
            top.0@ == select_top(entries@, top_n as nat, min_measure as int),
            hexes_match(top.0@, top.1@),
    {
        let mut top_rgb: Vec<Rgb<u8>> = Vec::new();
        let mut i: usize = 0;
        assert(entries@.take(0) =~= Seq::<Entry>::empty());
        while i < entries.len() && top_rgb.len() < top_n
            invariant
                i <= entries.len(),
                top_rgb@ == select_top(entries@.take(i as int), top_n as nat, min_measure as int),
            decreases entries.len() - i,
        {
            let c = entries[i].0;
            let mut should_add = true;
            let mut j: usize = 0;
            while j < top_rgb.len()
                invariant
                    j <= top_rgb.len(),
                    should_add == separated(c, top_rgb@.take(j as int), min_measure as int),
                decreases top_rgb.len() - j,
            {
                proof {
                    let seen = top_rgb@.take(j as int);
                    let next = top_rgb@.take(j + 1);
                    let min = min_measure as int;
                    assert(next[j as int] == top_rgb@[j as int]);
                    if separated(c, next, min) {
                        assert forall|m: int| 0 <= m < seen.len() implies measure(c, seen[m])
                            >= min by {
                            assert(next[m] == seen[m]);
                        }
                    }
                    if separated(c, seen, min) && measure(c, top_rgb@[j as int]) >= min {
                        assert forall|m: int| 0 <= m < next.len() implies measure(c, next[m])
                            >= min by {
                            if m < j {
                                assert(next[m] == seen[m]);
                            }
                        }
                    }
                }
                if ColorUtil::color_distance(c, top_rgb[j]) < min_measure {
                    should_add = false;
                }
                j += 1;
            }
            assert(top_rgb@.take(top_rgb.len() as int) =~= top_rgb@);
            assert(entries@.take(i + 1).drop_last() =~= entries@.take(i as int));
            if should_add {
                top_rgb.push(c);
            }
            i += 1;
        }
        proof {
            if i < entries.len() {
                lemma_select_top_full(entries@, i as int, top_n as nat, min_measure as int);
            } else {
                assert(entries@.take(i as int) =~= entries@);
            }
        }
        let top_hex = hexes(&top_rgb);
        (top_rgb, top_hex)
    }

    /// The first `top_n` colours of the entries that keep the distance
    /// `MIN_DISTANCE` from those taken before them, with their hex notations.
    pub fn get_top_colors(entries: &Vec<Entry>, top_n: usize) -> (top: (Vec<Rgb<u8>>, Vec<String>))
        ensures
            top.0@ == select_top(entries@, top_n as nat, MIN_MEASURE as int),
            hexes_match(top.0@, top.1@),
    {
        Self::select_top(entries, top_n, MIN_MEASURE)
    }

    /// Puts `new_color` wherever the palette holds `original`.
    pub fn update_color(&mut self, original: Rgb<u8>, new_color: Rgb<u8>)
        requires
            old(self).wf(),
        ensures
            final(self).wf(),
            final(self).top_rgb@ == replaced(old(self).top_rgb@, original, new_color),
            final(self).all_entries == old(self).all_entries,
            final(self).current_path == old(self).current_path,
            final(self).pallette_size == old(self).pallette_size,
            !old(self).top_rgb@.contains(original) ==> final(self).top_rgb@ == old(self).top_rgb@,
    {
        let mut i: usize = 0;
        while i < self.top_rgb.len()
            invariant
                i <= self.top_rgb.len(),
                self.top_rgb.len() == old(self).top_rgb.len(),
                self.wf(),
                self.all_entries == old(self).all_entries,
                self.current_path == old(self).current_path,
                self.pallette_size == old(self).pallette_size,
                forall|j: int|
                    0 <= j < i ==> self.top_rgb@[j] == replaced(
                        old(self).top_rgb@,
                        original,
                        new_color,
                    )[j],
                forall|j: int| i <= j < self.top_rgb.len() ==> self.top_rgb@[j] == old(self).top_rgb@[j],
            decreases self.top_rgb.len() - i,
        {
            if self.top_rgb[i].same(original) {
                self.top_rgb.set(i, new_color);
                self.top_hex.set(i, ColorUtil::rgb_to_hex(new_color));
            }
            i += 1;
        }
        assert(self.top_rgb@ =~= replaced(old(self).top_rgb@, original, new_color));
        assert(!old(self).top_rgb@.contains(original) ==> self.top_rgb@ =~= old(self).top_rgb@);
    }

    /// Adds the complement of `c` at the end of the palette.
    pub fn add_complementary(&mut self, c: Rgb<u8>)
        requires
            old(self).wf(),
            old(self).pallette_size < usize::MAX,
        ensures
            final(self).wf(),
            final(self).top_rgb@ == old(self).top_rgb@.push(ColorUtil::complement(c)),
            final(self).pallette_size == old(self).pallette_size + 1,
            final(self).all_entries == old(self).all_entries,
            final(self).current_path == old(self).current_path,
    {
        let complement = ColorUtil::get_compliment(c);
        self.add_new_color(complement);
    }

    /// Adds `c` at the end of the palette, whatever the palette holds.
    pub fn add_new_color(&mut self, c: Rgb<u8>)
        requires
            old(self).wf(),
            old(self).pallette_size < usize::MAX,
        ensures
            final(self).wf(),
            final(self).top_rgb@ == old(self).top_rgb@.push(c),
            final(self).pallette_size == old(self).pallette_size + 1,
            final(self).all_entries == old(self).all_entries,
            final(self).current_path == old(self).current_path,
    {
        self.pallette_size += 1;
        self.top_rgb.push(c);
        self.top_hex.push(ColorUtil::rgb_to_hex(c));
    }

    /// The histogram of a buffer of `width` times `height` pixels, each of
    /// them red, green and blue in this order; nothing where the buffer has
    /// another length.
    pub fn extract_pallete(buffer: &[u8], width: u32, height: u32) -> (hist: Option<ColorHistogram>)
        ensures
            hist.is_some() <==> buffer@.len() == 3 * width * height,
            hist matches Some(h) ==> h.wf() && h@ == tally(pixels_of(buffer@)) && total(h@)
                == width * height,
    {
        ColorHistogram::from_pixels(buffer, width, height)
    }
}

impl Default for Pallette {
    fn default() -> (p: Pallette)
        ensures
            p.is_blank(),
            p.wf(),
    {
        Pallette::new()
    }
}

} // verus!
