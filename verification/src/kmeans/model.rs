//! The clustering as mathematics: assignments, the totals of their
//! clusters, the two steps of a round, and the rounds.

use crate::img_utils::color_point::ColorPoint;
use crate::img_utils::histogram::{total_count, HistogramEntry};
use crate::kmeans::center::{nearest_center, ClusterCenter, WeightedColor};
use vstd::prelude::*;

verus! {

/// A histogram entry with the cluster it is assigned to, and its
/// contribution to that cluster's sums.
#[derive(Debug, Clone, Copy, PartialEq, Eq, Structural)]
pub struct ClusterEntry {
    pub histogram_point: HistogramEntry,
    pub cluster_number: u32,
    pub weighted_colors: WeightedColor,
}

impl ClusterEntry {
    /// What an entry contributes to the sums of its cluster: each channel
    /// times the occurrence count.
    pub open spec fn contribution(point: HistogramEntry) -> WeightedColor {
        WeightedColor {
            r: (point.color.r * point.weight) as u128,
            g: (point.color.g * point.weight) as u128,
            b: (point.color.b * point.weight) as u128,
        }
    }

    /// The entry carries its own contribution.
    pub open spec fn wf(self) -> bool {
        self.weighted_colors == Self::contribution(self.histogram_point)
    }

    /// The entry in the given cluster, with its contribution worked out.
    pub fn new(histogram_point: HistogramEntry, cluster_number: u32) -> (entry: Self)
        ensures
            entry.histogram_point == histogram_point,
            entry.cluster_number == cluster_number,
            entry.wf(),
    {
        let weight: u128 = histogram_point.weight as u128;
        assert(histogram_point.color.r * histogram_point.weight <= u128::MAX
            && histogram_point.color.g * histogram_point.weight <= u128::MAX
            && histogram_point.color.b * histogram_point.weight <= u128::MAX) by (nonlinear_arith)
            requires
                histogram_point.color.r <= u32::MAX,
                histogram_point.color.g <= u32::MAX,
                histogram_point.color.b <= u32::MAX,
                histogram_point.weight <= u64::MAX,
        ;
        Self {
            histogram_point,
            cluster_number,
            weighted_colors: WeightedColor {
                r: histogram_point.color.r as u128 * weight,
                g: histogram_point.color.g as u128 * weight,
                b: histogram_point.color.b as u128 * weight,
            },
        }
    }
}

/// What the members of one cluster add up to.
pub struct ClusterTotals {
    pub r: nat,
    pub g: nat,
    pub b: nat,
    pub weight: nat,
    pub size: nat,
}

impl ClusterTotals {
    /// The totals of no members.
    pub open spec fn zero() -> ClusterTotals {
        ClusterTotals { r: 0, g: 0, b: 0, weight: 0, size: 0 }
    }

    /// The totals with one more member.
    pub open spec fn with(self, point: HistogramEntry) -> ClusterTotals {
        ClusterTotals {
            r: (self.r + point.color.r * point.weight) as nat,
            g: (self.g + point.color.g * point.weight) as nat,
            b: (self.b + point.color.b * point.weight) as nat,
            weight: (self.weight + point.weight) as nat,
            size: self.size + 1,
        }
    }

    /// The weighted mean of the members, as a center.
    pub open spec fn center(self) -> ClusterCenter {
        ClusterCenter {
            sum: WeightedColor { r: self.r as u128, g: self.g as u128, b: self.b as u128 },
            weight: self.weight as u64,
        }
    }
}

/// The totals over the entries of `data` that are assigned to cluster `c`.
pub open spec fn cluster_totals(data: Seq<ClusterEntry>, c: u32) -> ClusterTotals
    decreases data.len(),
{
    if data.len() == 0 {
        ClusterTotals::zero()
    } else if data.last().cluster_number == c {
        cluster_totals(data.drop_last(), c).with(data.last().histogram_point)
    } else {
        cluster_totals(data.drop_last(), c)
    }
}

/// The occurrence counts of all entries, added up.
pub open spec fn total_weight(data: Seq<ClusterEntry>) -> nat
    decreases data.len(),
{
    if data.len() == 0 {
        0
    } else {
        (total_weight(data.drop_last()) + data.last().histogram_point.weight) as nat
    }
}

/// Every entry carries its own contribution and a cluster number below
/// `k`, and the occurrence counts add up within `u64`.
pub open spec fn assignment_wf(data: Seq<ClusterEntry>, k: nat) -> bool {
    &&& forall|i: int| 0 <= i < data.len() ==> (#[trigger] data[i]).wf()
    &&& forall|i: int| 0 <= i < data.len() ==> (#[trigger] data[i]).cluster_number < k
    &&& total_weight(data) <= u64::MAX
}

/// The first entries weigh no more than all of them.
pub proof fn lemma_total_weight_prefix(data: Seq<ClusterEntry>, i: int)
    requires
        0 <= i <= data.len(),
    ensures
        total_weight(data.take(i)) <= total_weight(data),
    decreases data.len() - i,
{
    if i < data.len() {
        lemma_total_weight_prefix(data, i + 1);
        assert(data.take(i + 1).drop_last() =~= data.take(i));
    } else {
        assert(data.take(i) =~= data);
    }
}

/// A cluster weighs no more than all entries and has no more members
/// than there are entries, and none of its channel sums is more than its
/// weight times the largest channel value.
pub proof fn lemma_totals_bounds(data: Seq<ClusterEntry>, c: u32)
    ensures
        cluster_totals(data, c).weight <= total_weight(data),
        cluster_totals(data, c).size <= data.len(),
        cluster_totals(data, c).r <= cluster_totals(data, c).weight * u32::MAX,
        cluster_totals(data, c).g <= cluster_totals(data, c).weight * u32::MAX,
        cluster_totals(data, c).b <= cluster_totals(data, c).weight * u32::MAX,
    decreases data.len(),
{
    if data.len() > 0 {
        lemma_totals_bounds(data.drop_last(), c);
        let p = data.last().histogram_point;
        assert(p.color.r * p.weight <= p.weight * u32::MAX && p.color.g * p.weight <= p.weight
            * u32::MAX && p.color.b * p.weight <= p.weight * u32::MAX) by (nonlinear_arith)
            requires
                p.color.r <= u32::MAX,
                p.color.g <= u32::MAX,
                p.color.b <= u32::MAX,
        ;
    }
}

/// The total weight depends on the histogram entries alone, not on the
/// cluster numbers.
pub proof fn lemma_total_weight_same_points(a: Seq<ClusterEntry>, b: Seq<ClusterEntry>)
    requires
        a.len() == b.len(),
        forall|i: int| 0 <= i < a.len() ==> (#[trigger] a[i]).histogram_point == b[i].histogram_point,
    ensures
        total_weight(a) == total_weight(b),
    decreases a.len(),
{
    if a.len() > 0 {
        lemma_total_weight_same_points(a.drop_last(), b.drop_last());
    }
}

/// The histogram entries of `data`, without their cluster numbers.
pub open spec fn points_of(data: Seq<ClusterEntry>) -> Seq<HistogramEntry> {
    Seq::new(data.len(), |i: int| data[i].histogram_point)
}

/// The total weight of an assignment is the number of pixels of its
/// histogram entries.
pub proof fn lemma_total_weight_is_count(data: Seq<ClusterEntry>)
    ensures
        total_weight(data) == total_count(points_of(data)),
    decreases data.len(),
{
    if data.len() > 0 {
        lemma_total_weight_is_count(data.drop_last());
        assert(points_of(data).drop_last() =~= points_of(data.drop_last()));
    }
}

/// The sizes of the clusters below `k`, added up.
pub open spec fn members_below(data: Seq<ClusterEntry>, k: nat) -> nat
    decreases k,
{
    if k == 0 {
        0
    } else {
        members_below(data, (k - 1) as nat) + cluster_totals(data, (k - 1) as u32).size
    }
}

proof fn lemma_members_below_step(data: Seq<ClusterEntry>, k: nat)
    requires
        data.len() > 0,
        k <= u32::MAX + 1,
    ensures
        members_below(data, k) == members_below(data.drop_last(), k) + if data.last().cluster_number
            < k {
            1nat
        } else {
            0nat
        },
    decreases k,
{
    if k > 0 {
        lemma_members_below_step(data, (k - 1) as nat);
    }
}

/// Every entry whose cluster number is below `k` is a member of exactly
/// one of the clusters below `k`.
pub proof fn lemma_members_below_all(data: Seq<ClusterEntry>, k: nat)
    requires
        k <= u32::MAX + 1,
        forall|i: int| 0 <= i < data.len() ==> (#[trigger] data[i]).cluster_number < k,
    ensures
        members_below(data, k) == data.len(),
    decreases data.len(),
{
    if data.len() > 0 {
        lemma_members_below_all(data.drop_last(), k);
        lemma_members_below_step(data, k);
    } else {
        lemma_members_below_empty(data, k);
    }
}

proof fn lemma_members_below_empty(data: Seq<ClusterEntry>, k: nat)
    requires
        data.len() == 0,
    ensures
        members_below(data, k) == 0,
    decreases k,
{
    if k > 0 {
        lemma_members_below_empty(data, (k - 1) as nat);
    }
}

/// Whether some cluster below `k` has members of no weight at all.
pub open spec fn has_empty_cluster(data: Seq<ClusterEntry>, k: nat) -> bool {
    exists|c: u32| c < k && (#[trigger] cluster_totals(data, c)).weight == 0
}

/// The weighted mean of each of the `k` clusters.
pub open spec fn mean_centers(data: Seq<ClusterEntry>, k: nat) -> Seq<ClusterCenter> {
    Seq::new(k, |c: int| cluster_totals(data, c as u32).center())
}

/// The centers of the assignment `data`: none if some cluster is empty,
/// else the weighted means.
pub open spec fn spec_centers(data: Seq<ClusterEntry>, k: nat) -> Option<Seq<ClusterCenter>> {
    if has_empty_cluster(data, k) {
        None
    } else {
        Some(mean_centers(data, k))
    }
}

/// `k` centers at the origin.
pub open spec fn zero_centers(k: nat) -> Seq<ClusterCenter> {
    Seq::new(k, |c: int| ClusterCenter::spec_zero())
}

/// The cluster numbers of `data`, entry by entry.
pub open spec fn labels_of(data: Seq<ClusterEntry>) -> Seq<u32> {
    Seq::new(data.len(), |i: int| data[i].cluster_number)
}

/// For every entry of `data`, the position of the center nearest to its
/// color.
pub open spec fn nearest_labels(data: Seq<ClusterEntry>, centers: Seq<ClusterCenter>) -> Seq<u32> {
    Seq::new(data.len(), |i: int| nearest_center(data[i].histogram_point.color, centers) as u32)
}

/// Every cluster number below `k` occurs among `labels`.
pub open spec fn covers(labels: Seq<u32>, k: nat) -> bool {
    forall|c: u32| c < k ==> #[trigger] labels.contains(c)
}

/// The next assignment: every entry goes to its nearest center. There is
/// none if that changes nothing, or if it leaves a cluster without members.
pub open spec fn spec_reassign(data: Seq<ClusterEntry>, centers: Seq<ClusterCenter>) -> Option<
    Seq<u32>,
> {
    let labels = nearest_labels(data, centers);
    if labels == labels_of(data) || !covers(labels, centers.len()) {
        None
    } else {
        Some(labels)
    }
}

/// The entries of `data` with the cluster numbers `labels`.
pub open spec fn relabeled(data: Seq<ClusterEntry>, labels: Seq<u32>) -> Seq<ClusterEntry> {
    Seq::new(
        data.len(),
        |i: int|
            ClusterEntry {
                histogram_point: data[i].histogram_point,
                cluster_number: labels[i],
                weighted_colors: data[i].weighted_colors,
            },
    )
}

/// An assignment together with the centers of its clusters.
pub struct Clustering {
    pub data: Seq<ClusterEntry>,
    pub centers: Seq<ClusterCenter>,
}

/// The outcome of at most `tries` rounds, each of which computes the
/// centers of the assignment and then assigns every entry to its nearest
/// center. The rounds end early, with the last centers that were computed,
/// as soon as one of the two steps gives nothing.
pub open spec fn iterate(data: Seq<ClusterEntry>, centers: Seq<ClusterCenter>, tries: nat) -> Clustering
    decreases tries,
{
    if tries == 0 {
        Clustering { data, centers }
    } else {
        match spec_centers(data, centers.len()) {
            None => Clustering { data, centers },
            Some(means) => match spec_reassign(data, means) {
                None => Clustering { data, centers: means },
                Some(labels) => iterate(relabeled(data, labels), means, (tries - 1) as nat),
            },
        }
    }
}

/// The palette of a clustering: for each cluster the color of its center,
/// rounded down, and the number of entries assigned to it.
pub open spec fn spec_palette(clustering: Clustering) -> Seq<ColorPoint> {
    Seq::new(
        clustering.centers.len(),
        |c: int|
            ColorPoint {
                color: clustering.centers[c].color(),
                members: cluster_totals(clustering.data, c as u32).size as usize,
                total: clustering.data.len() as usize,
            },
    )
}

/// New cluster numbers below `k` leave a valid assignment valid.
pub proof fn lemma_relabeled_wf(data: Seq<ClusterEntry>, labels: Seq<u32>, k: nat)
    requires
        assignment_wf(data, k),
        labels.len() == data.len(),
        forall|i: int| 0 <= i < labels.len() ==> (#[trigger] labels[i]) < k,
    ensures
        assignment_wf(relabeled(data, labels), k),
{
    lemma_total_weight_same_points(data, relabeled(data, labels));
}

/// The member counts of a palette, added up.
pub open spec fn total_members(palette: Seq<ColorPoint>) -> nat
    decreases palette.len(),
{
    if palette.len() == 0 {
        0
    } else {
        (total_members(palette.drop_last()) + palette.last().members) as nat
    }
}

/// `data` is a first assignment of `entries` to `k` clusters: entry `i`
/// is in cluster `i` as long as there are clusters left, and the others are
/// in any cluster.
pub open spec fn seeded(data: Seq<ClusterEntry>, entries: Seq<HistogramEntry>, k: nat) -> bool {
    &&& points_of(data) == entries
    &&& forall|i: int|
        0 <= i < data.len() ==> {
            &&& (#[trigger] data[i]).wf()
            &&& data[i].cluster_number < k
            &&& (i < k ==> data[i].cluster_number == i)
        }
}

/// The cluster number that the numbers `drawn` hold for the entry at
/// position `j` behind the seeds: the number at that position, brought
/// below `k`, and 0 where they hold none.
pub open spec fn drawn_number(drawn: Seq<u32>, j: int, k: nat) -> u32 {
    if 0 <= j < drawn.len() && k > 0 {
        (drawn[j] as nat % k) as u32
    } else {
        0
    }
}

/// The first assignment of `entries` to `k` clusters with the numbers
/// `drawn`: entry `i` is in cluster `i` as long as there are clusters left,
/// and the others are in the clusters that `drawn` holds for them.
pub open spec fn seeded_with(entries: Seq<HistogramEntry>, k: nat, drawn: Seq<u32>) -> Seq<
    ClusterEntry,
> {
    Seq::new(
        entries.len(),
        |i: int|
            ClusterEntry {
                histogram_point: entries[i],
                cluster_number: if i < k {
                    i as u32
                } else {
                    drawn_number(drawn, i - k, k)
                },
                weighted_colors: ClusterEntry::contribution(entries[i]),
            },
    )
}

/// Whatever numbers are drawn, they make a first assignment.
pub proof fn lemma_seeded_with(entries: Seq<HistogramEntry>, k: nat, drawn: Seq<u32>)
    requires
        0 < k <= u32::MAX,
    ensures
        seeded(seeded_with(entries, k, drawn), entries, k),
{
    let data = seeded_with(entries, k, drawn);
    assert(points_of(data) =~= entries);
    assert forall|i: int| 0 <= i < data.len() implies (#[trigger] data[i]).cluster_number < k by {
        if i >= k && 0 <= i - k < drawn.len() {
            assert((drawn[i - k] as nat % k) < k) by (nonlinear_arith)
                requires
                    k > 0,
            ;
        }
    }
}

} // verus!
