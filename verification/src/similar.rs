//! The colours of a histogram that lie near a given colour.

use crate::color::{measure, ColorUtil, Rgb};
use crate::histogram::Entry;
use crate::rank::{arranged, rank_order, ranking};
use vstd::prelude::*;

verus! {

/// A colour, the number of pixels that have it, and its measure from the
/// colour that it was compared with.
pub type Match = (Rgb<u8>, usize, u32);

/// The entries whose colours have a measure below `bound` from `c`, in the
/// order they had.
pub open spec fn near(c: Rgb<u8>, all: Seq<Entry>, bound: int) -> Seq<Entry>
    decreases all.len(),
{
    if all.len() == 0 {
        Seq::empty()
    } else {
        let before = near(c, all.drop_last(), bound);
        if measure(c, all.last().0) < bound {
            before.push(all.last())
        } else {
            before
        }
    }
}

/// The measures of the colours of `entries` from `c`.
pub open spec fn measures(c: Rgb<u8>, entries: Seq<Entry>) -> Seq<u64> {
    Seq::new(entries.len(), |i: int| measure(c, entries[i].0) as u64)
}

/// The entries, each with the measure of its colour from `c`.
pub open spec fn matches_of(c: Rgb<u8>, entries: Seq<Entry>) -> Seq<Match> {
    Seq::new(entries.len(), |i: int| (entries[i].0, entries[i].1, measure(c, entries[i].0) as u32))
}

/// The entries near `c` by falling measure, those of equal measure in the
/// order they had, and of these the first `count`.
pub open spec fn similar_to(c: Rgb<u8>, all: Seq<Entry>, count: nat, bound: int) -> Seq<Match> {
    let kept = near(c, all, bound);
    let sorted = matches_of(c, arranged(kept, ranking(measures(c, kept))));
    if count <= sorted.len() {
        sorted.take(count as int)
    } else {
        sorted
    }
}

/// The entries near a colour are entries, fewer than or as many as there
/// were, and each has a measure below the bound.
pub proof fn lemma_near(c: Rgb<u8>, all: Seq<Entry>, bound: int)
    ensures
        near(c, all, bound).len() <= all.len(),
        forall|i: int|
            0 <= i < near(c, all, bound).len() ==> all.contains(#[trigger] near(c, all, bound)[i])
                && measure(c, near(c, all, bound)[i].0) < bound,
        forall|i: int|
            0 <= i < all.len() && measure(c, all[i].0) < bound ==> near(c, all, bound).contains(
                #[trigger] all[i],
            ),
    decreases all.len(),
{
    if all.len() > 0 {
        let rest = all.drop_last();
        lemma_near(c, rest, bound);
        let before = near(c, rest, bound);
        let kept = near(c, all, bound);
        assert forall|i: int| 0 <= i < kept.len() implies all.contains(#[trigger] kept[i])
            && measure(c, kept[i].0) < bound by {
            if i < before.len() {
                assert(rest.contains(before[i]));
                let k = choose|k: int| 0 <= k < rest.len() && rest[k] == before[i];
                assert(all[k] == kept[i]);
            } else {
                assert(all[all.len() - 1] == kept[i]);
            }
        }
        assert forall|i: int| 0 <= i < all.len() && measure(c, all[i].0) < bound implies kept.contains(
            #[trigger] all[i],
        ) by {
            if i < rest.len() {
                assert(before.contains(rest[i]));
                let k = choose|k: int| 0 <= k < before.len() && before[k] == rest[i];
                assert(kept[k] == all[i]);
            } else {
                assert(kept[kept.len() - 1] == all[i]);
            }
        }
    }
}

/// The colours found near a colour.
#[derive(Clone, Debug)]
pub struct Similar {
    /// The colour that the others were compared with.
    pub color: Rgb<u8>,
    /// The colours near it, the farthest first.
    pub similar_colors: Vec<Match>,
}

impl Similar {
    /// The entries of `all_colors` whose measure from `c` is below
    /// `similar_threshold`, the farthest first, those equally far in the order
    /// they had, and no more than `count` of them.
    pub fn new_similar(c: Rgb<u8>, all_colors: &Vec<Entry>, count: usize, similar_threshold: u64) -> (similar:
        Similar)
        ensures
            similar.color == c,
            similar.similar_colors@ == similar_to(
                c,
                all_colors@,
                count as nat,
                similar_threshold as int,
            ),
    {
        let mut kept: Vec<Entry> = Vec::new();
        let mut keys: Vec<u64> = Vec::new();
        let mut i: usize = 0;
        let ghost bound = similar_threshold as int;
        assert(all_colors@.take(0) =~= Seq::<Entry>::empty());
        while i < all_colors.len()
            invariant
                i <= all_colors.len(),
                bound == similar_threshold as int,
                kept@ == near(c, all_colors@.take(i as int), bound),
                keys@ == measures(c, kept@),
            decreases all_colors.len() - i,
        {
            let entry = all_colors[i];
            let d = ColorUtil::color_distance(c, entry.0);
            assert(all_colors@.take(i + 1).drop_last() =~= all_colors@.take(i as int));
            if (d as u64) < similar_threshold {
                kept.push(entry);
                keys.push(d as u64);
                assert(keys@ =~= measures(c, kept@));
            }
            i += 1;
        }
        assert(all_colors@.take(i as int) =~= all_colors@);
        let order = rank_order(&keys);
        let ghost sorted = matches_of(c, arranged(kept@, order@));
        let mut found: Vec<Match> = Vec::new();
        let mut j: usize = 0;
        while j < order.len() && j < count
            invariant
                j <= order.len(),
                j <= count,
                order.len() == kept.len(),
                forall|m: int| 0 <= m < order.len() ==> order[m] < kept.len(),
                sorted == matches_of(c, arranged(kept@, order@)),
                found@ == sorted.take(j as int),
            decreases order.len() - j,
        {
            let entry = kept[order[j]];
            let d = ColorUtil::color_distance(c, entry.0);
            found.push((entry.0, entry.1, d));
            assert(found@ =~= sorted.take(j + 1));
            j += 1;
        }
        assert(sorted.take(sorted.len() as int) =~= sorted);
        Similar { color: c, similar_colors: found }
    }
}

} // verus!
