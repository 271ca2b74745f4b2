//! The histogram of the distinct colors of a picture.

use crate::img_utils::raster::Raster;
use crate::img_utils::rgb_color::{lemma_key_injective, RgbColor};
use std::collections::HashMap;
use vstd::prelude::*;

verus! {

broadcast use vstd::std_specs::hash::group_hash_axioms;

/// A color together with the number of pixels that have it.
#[derive(Debug, Clone, Copy, PartialEq, Eq, Structural)]
pub struct HistogramEntry {
    pub color: RgbColor,
    pub weight: u64,
}

impl HistogramEntry {
    pub fn new(color: RgbColor, weight: u64) -> (entry: Self)
        ensures
            entry == (HistogramEntry { color, weight }),
    {
        Self { color, weight }
    }
}

/// Some entry of `entries` has the color `color`.
pub open spec fn contains_color(entries: Seq<HistogramEntry>, color: RgbColor) -> bool {
    exists|i: int| 0 <= i < entries.len() && (#[trigger] entries[i]).color == color
}

/// The position of an entry of `entries` that has the color `color`.
pub open spec fn position_of(entries: Seq<HistogramEntry>, color: RgbColor) -> int {
    choose|i: int| 0 <= i < entries.len() && (#[trigger] entries[i]).color == color
}

/// No two entries have the same color.
pub open spec fn distinct_colors(entries: Seq<HistogramEntry>) -> bool {
    forall|i: int, j: int|
        0 <= i < j < entries.len() ==> (#[trigger] entries[i]).color != (#[trigger] entries[j]).color
}

/// The number of pixels that the entries stand for.
pub open spec fn total_count(entries: Seq<HistogramEntry>) -> nat
    decreases entries.len(),
{
    if entries.len() == 0 {
        0
    } else {
        (total_count(entries.drop_last()) + entries.last().weight) as nat
    }
}

/// The entries after one more pixel of the color `color`: the count of its
/// entry is one higher, or, where it had none, it has a new entry at the end
/// with count 1.
pub open spec fn pushed(entries: Seq<HistogramEntry>, color: RgbColor) -> Seq<HistogramEntry> {
    if contains_color(entries, color) {
        let i = position_of(entries, color);
        entries.update(i, HistogramEntry { color, weight: (entries[i].weight + 1) as u64 })
    } else {
        entries.push(HistogramEntry { color, weight: 1 })
    }
}

/// The entries after the pixels `colors`, pushed in their order.
pub open spec fn histogram_of(colors: Seq<RgbColor>) -> Seq<HistogramEntry>
    decreases colors.len(),
{
    if colors.len() == 0 {
        Seq::empty()
    } else {
        pushed(histogram_of(colors.drop_last()), colors.last())
    }
}

/// The count that `entries` hold for the color `color`: none where no entry
/// has the color.
pub open spec fn count_of(entries: Seq<HistogramEntry>, color: RgbColor) -> nat {
    if contains_color(entries, color) {
        entries[position_of(entries, color)].weight as nat
    } else {
        0
    }
}

/// How often `color` occurs among `colors`.
pub open spec fn occurrences(colors: Seq<RgbColor>, color: RgbColor) -> nat
    decreases colors.len(),
{
    if colors.len() == 0 {
        0
    } else if colors.last() == color {
        occurrences(colors.drop_last(), color) + 1
    } else {
        occurrences(colors.drop_last(), color)
    }
}

proof fn lemma_occurrences_bound(colors: Seq<RgbColor>, color: RgbColor)
    ensures
        occurrences(colors, color) <= colors.len(),
    decreases colors.len(),
{
    if colors.len() > 0 {
        lemma_occurrences_bound(colors.drop_last(), color);
    }
}

proof fn lemma_count_at(entries: Seq<HistogramEntry>, i: int)
    requires
        distinct_colors(entries),
        0 <= i < entries.len(),
    ensures
        contains_color(entries, entries[i].color),
        position_of(entries, entries[i].color) == i,
        count_of(entries, entries[i].color) == entries[i].weight,
{
    let j = position_of(entries, entries[i].color);
    assert(entries[j].color == entries[i].color);
}

/// The histogram of some pixels has one entry for each color among them,
/// and the entry counts the pixels of that color.
pub proof fn lemma_histogram_counts(colors: Seq<RgbColor>, color: RgbColor)
    requires
        colors.len() <= u64::MAX,
    ensures
        distinct_colors(histogram_of(colors)),
        count_of(histogram_of(colors), color) == occurrences(colors, color),
        contains_color(histogram_of(colors), color) <==> occurrences(colors, color) > 0,
    decreases colors.len(),
{
    if colors.len() > 0 {
        let front = histogram_of(colors.drop_last());
        let pixel = colors.last();
        let all = histogram_of(colors);
        lemma_histogram_counts(colors.drop_last(), color);
        lemma_histogram_counts(colors.drop_last(), pixel);
        lemma_occurrences_bound(colors.drop_last(), pixel);
        if contains_color(front, pixel) {
            let at = position_of(front, pixel);
            assert(front[at].color == pixel);
            assert forall|i: int, j: int| 0 <= i < j < all.len() implies (#[trigger] all[i]).color != (
            #[trigger] all[j]).color by {
                assert(all[i].color == front[i].color && all[j].color == front[j].color);
            }
            if contains_color(front, color) {
                let found = position_of(front, color);
                assert(all[found].color == color);
                lemma_count_at(all, found);
                lemma_count_at(front, found);
            } else if contains_color(all, color) {
                let found = position_of(all, color);
                assert(front[found].color == color);
            }
        } else {
            assert forall|i: int, j: int| 0 <= i < j < all.len() implies (#[trigger] all[i]).color != (
            #[trigger] all[j]).color by {
                if j < front.len() {
                    assert(all[i] == front[i] && all[j] == front[j]);
                } else {
                    assert(all[i] == front[i]);
                }
            }
            if contains_color(front, color) {
                let found = position_of(front, color);
                assert(all[found].color == color);
                lemma_count_at(all, found);
                lemma_count_at(front, found);
            } else if pixel == color {
                lemma_count_at(all, front.len() as int);
            } else if contains_color(all, color) {
                let found = position_of(all, color);
                if found < front.len() {
                    assert(front[found].color == color);
                }
            }
        }
    }
}

/// A histogram has entries as soon as there are pixels, and only then.
pub proof fn lemma_histogram_empty(colors: Seq<RgbColor>)
    ensures
        histogram_of(colors).len() == 0 <==> colors.len() == 0,
{
    if colors.len() > 0 {
        let front = histogram_of(colors.drop_last());
        if contains_color(front, colors.last()) {
            let i = position_of(front, colors.last());
            assert(front[i].color == colors.last());
        }
    }
}

proof fn lemma_weight_within_total(entries: Seq<HistogramEntry>, i: int)
    requires
        0 <= i < entries.len(),
    ensures
        entries[i].weight <= total_count(entries),
    decreases entries.len(),
{
    if i < entries.len() - 1 {
        lemma_weight_within_total(entries.drop_last(), i);
    }
}

proof fn lemma_total_count_update(entries: Seq<HistogramEntry>, i: int, entry: HistogramEntry)
    requires
        0 <= i < entries.len(),
    ensures
        total_count(entries.update(i, entry)) == total_count(entries) - entries[i].weight
            + entry.weight,
    decreases entries.len(),
{
    let updated = entries.update(i, entry);
    if i < entries.len() - 1 {
        lemma_total_count_update(entries.drop_last(), i, entry);
        assert(updated.drop_last() =~= entries.drop_last().update(i, entry));
    } else {
        assert(updated.drop_last() =~= entries.drop_last());
        lemma_weight_within_total(entries, i);
    }
}

/// The distinct colors of an image, each with the number of its pixels, in
/// the order in which the colors first came.
#[derive(Debug)]
pub struct Histogram {
    entries: Vec<HistogramEntry>,
    index: HashMap<u128, usize>,
    total: u64,
}

impl View for Histogram {
    type V = Seq<HistogramEntry>;

    closed spec fn view(&self) -> Seq<HistogramEntry> {
        self.entries@
    }
}

impl Histogram {
    /// The index finds every entry by the key of its color, and nothing else.
    pub closed spec fn index_wf(&self) -> bool {
        &&& forall|i: int|
            0 <= i < self.entries.len() ==> self.index@.contains_key(
                (#[trigger] self.entries[i]).color.key() as u128,
            ) && self.index@[self.entries[i].color.key() as u128] == i
        &&& forall|key: u128| #[trigger]
            self.index@.contains_key(key) ==> self.index@[key] < self.entries.len()
                && self.entries[self.index@[key] as int].color.key() == key
        &&& self.total == total_count(self.entries@)
    }

    /// Every color has one entry, every entry stands for at least one
    /// pixel, and the number of pixels fits in `u64`.
    pub open spec fn wf(&self) -> bool {
        &&& self.index_wf()
        &&& distinct_colors(self@)
        &&& forall|i: int| 0 <= i < self@.len() ==> (#[trigger] self@[i]).weight >= 1
        &&& total_count(self@) <= u64::MAX
    }

    /// The histogram of no pixels.
    pub fn new() -> (histogram: Self)
        ensures
            histogram.wf(),
            histogram@.len() == 0,
    {
        Self { entries: Vec::new(), index: HashMap::new(), total: 0 }
    }

    /// The number of pixels pushed so far.
    pub fn total(&self) -> (total: u64)
        requires
            self.wf(),
        ensures
            total == total_count(self@),
    {
        self.total
    }

    /// Counts one more pixel of the color `color`.
    pub fn push_color(&mut self, color: &RgbColor)
        requires
            old(self).wf(),
            total_count(old(self)@) < u64::MAX,
        ensures
            final(self).wf(),
            final(self)@ == pushed(old(self)@, *color),
            total_count(final(self)@) == total_count(old(self)@) + 1,
    {
        let key = color.hash_key();
        let ghost before = self.entries@;
        let found: Option<usize> = match self.index.get(&key) {
            Some(position) => Some(*position),
            None => None,
        };
        match found {
            Some(position) => {
                let mut entry = self.entries[position];
                proof {
                    lemma_key_injective(entry.color, *color);
                    lemma_weight_within_total(before, position as int);
                    assert(contains_color(before, *color));
                    let chosen = position_of(before, *color);
                    assert(before[chosen].color == *color);
                    assert(chosen == position);
                }
                entry.weight = entry.weight + 1;
                self.entries.set(position, entry);
                proof {
                    lemma_total_count_update(before, position as int, entry);
                    assert forall|key: u128| #[trigger]
                        self.index@.contains_key(key) implies self.index@[key] < self.entries.len()
                        && self.entries[self.index@[key] as int].color.key() == key by {
                        assert(before[self.index@[key] as int].color.key() == key);
                    }
                    assert forall|i: int| 0 <= i < self.entries.len() implies self.index@.contains_key(
                        (#[trigger] self.entries[i]).color.key() as u128,
                    ) && self.index@[self.entries[i].color.key() as u128] == i by {
                        assert(before[i].color == self.entries[i].color);
                    }
                    assert forall|i: int, j: int| 0 <= i < j < self.entries.len() implies (
                    #[trigger] self.entries[i]).color != (#[trigger] self.entries[j]).color by {
                        assert(before[i].color != before[j].color);
                    }
                }
            },
            None => {
                let position: usize = self.entries.len();
                proof {
                    if contains_color(before, *color) {
                        let i = position_of(before, *color);
                        assert(self.index@.contains_key(before[i].color.key() as u128));
                    }
                    assert(before.push(HistogramEntry { color: *color, weight: 1 }).drop_last()
                        =~= before);
                }
                self.entries.push(HistogramEntry::new(*color, 1));
                self.index.insert(key, position);
                proof {
                    assert forall|i: int| 0 <= i < self.entries.len() implies self.index@.contains_key(
                        (#[trigger] self.entries[i]).color.key() as u128,
                    ) && self.index@[self.entries[i].color.key() as u128] == i by {
                        if i < position {
                            assert(before[i] == self.entries[i]);
                            if before[i].color.key() == color.key() {
                                lemma_key_injective(before[i].color, *color);
                            }
                        }
                    }
                    assert forall|i: int, j: int| 0 <= i < j < self.entries.len() implies (
                    #[trigger] self.entries[i]).color != (#[trigger] self.entries[j]).color by {
                        assert(before[i] == self.entries[i]);
                        if j < position {
                            assert(before[j] == self.entries[j]);
                        }
                    }
                }
            },
        }
        self.total = self.total + 1;
    }

    /// The entries, in the order in which their colors first came.
    pub fn to_vec(&self) -> (entries: Vec<HistogramEntry>)
        ensures
            entries@ == self@,
    {
        let mut entries: Vec<HistogramEntry> = Vec::new();
        let mut i: usize = 0;
        while i < self.entries.len()
            invariant
                i <= self.entries.len(),
                entries@ == self.entries@.take(i as int),
            decreases self.entries.len() - i,
        {
            entries.push(self.entries[i]);
            assert(self.entries@.take(i + 1) =~= self.entries@.take(i as int).push(
                self.entries[i as int],
            ));
            i += 1;
        }
        assert(self.entries@.take(self.entries.len() as int) =~= self.entries@);
        entries
    }
}

impl Default for Histogram {
    fn default() -> (histogram: Self)
        ensures
            histogram.wf(),
            histogram@.len() == 0,
    {
        Self::new()
    }
}

/// The histogram of the pixels of `img`, pushed row by row.
pub fn from_image(img: &Raster) -> (histogram: Histogram)
    requires
        img.wf(),
    ensures
        histogram.wf(),
        histogram@ == histogram_of(img.pixels()),
        total_count(histogram@) == img.pixels().len(),
{
    let mut histogram = Histogram::new();
    let n: usize = img.pixel_count();
    let mut i: usize = 0;
    assert(img.pixels().take(0) =~= Seq::<RgbColor>::empty());
    while i < n
        invariant
            i <= n,
            n == img.pixels().len(),
            img.wf(),
            histogram.wf(),
            histogram@ == histogram_of(img.pixels().take(i as int)),
            total_count(histogram@) == i,
        decreases n - i,
    {
        let color = img.nth_pixel(i);
        assert(img.pixels().take(i + 1).drop_last() =~= img.pixels().take(i as int));
        histogram.push_color(&color);
        i += 1;
    }
    assert(img.pixels().take(n as int) =~= img.pixels());
    histogram
}

} // verus!
