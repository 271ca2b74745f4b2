//! Weighted k-means over the distinct colors of a histogram.

use crate::img_utils::color_point::ColorPoint;
use crate::img_utils::histogram::{Histogram, HistogramEntry};
use crate::kmeans::center::{nearest_center_index, ClusterCenter, WeightedColor};
use crate::kmeans::laws::lemma_palette_members;
use crate::kmeans::model::{
    assignment_wf, cluster_totals, iterate, labels_of, lemma_relabeled_wf, lemma_seeded_with,
    lemma_total_weight_is_count, lemma_total_weight_prefix, lemma_totals_bounds, mean_centers,
    nearest_labels, points_of, relabeled, seeded, seeded_with, spec_centers, spec_palette,
    spec_reassign, total_members, zero_centers, ClusterEntry, Clustering,
};
use rand::Rng;
use vstd::prelude::*;

verus! {

/// As many centers as there are clusters, all at the origin.
pub fn allocate_centers(num_clusters: u32) -> (centers: Vec<ClusterCenter>)
    ensures
        centers@ == zero_centers(num_clusters as nat),
{
    let mut centers: Vec<ClusterCenter> = Vec::new();
    let mut c: u32 = 0;
    while c < num_clusters
        invariant
            c <= num_clusters,
            centers.len() == c,
            forall|j: int| 0 <= j < c ==> centers[j] == ClusterCenter::spec_zero(),
        decreases num_clusters - c,
    {
        centers.push(ClusterCenter::zero());
        c += 1;
    }
    assert(centers@ =~= zero_centers(num_clusters as nat));
    centers
}

/// The weighted mean color of every cluster, or nothing if a cluster has
/// no weight.
pub fn calc_cluster_centers(cluster_data: &Vec<ClusterEntry>, number_of_clusters: u32) -> (centers:
    Option<Vec<ClusterCenter>>)
    requires
        assignment_wf(cluster_data@, number_of_clusters as nat),
    ensures
        match centers {
            Some(v) => spec_centers(cluster_data@, number_of_clusters as nat) == Some(v@),
            None => spec_centers(cluster_data@, number_of_clusters as nat) is None,
        },
        centers matches Some(v) ==> forall|c: int| 0 <= c < v.len() ==> (#[trigger] v[c]).wf(),
{
    let k: usize = number_of_clusters as usize;
    let mut sums: Vec<ClusterCenter> = Vec::new();
    let mut c: usize = 0;
    while c < k
        invariant
            c <= k,
            sums.len() == c,
            forall|j: int|
                0 <= j < c ==> sums[j] == (ClusterCenter {
                    sum: WeightedColor { r: 0, g: 0, b: 0 },
                    weight: 0,
                }),
        decreases k - c,
    {
        sums.push(ClusterCenter { sum: WeightedColor { r: 0, g: 0, b: 0 }, weight: 0 });
        c += 1;
    }
    let n: usize = cluster_data.len();
    let mut i: usize = 0;
    while i < n
        invariant
            i <= n,
            n == cluster_data.len(),
            k == number_of_clusters,
            sums.len() == k,
            assignment_wf(cluster_data@, k as nat),
            forall|j: int|
                0 <= j < k ==> #[trigger] sums[j] == cluster_totals(
                    cluster_data@.take(i as int),
                    j as u32,
                ).center(),
        decreases n - i,
    {
        let entry = cluster_data[i];
        let label: usize = entry.cluster_number as usize;
        let acc = sums[label];
        proof {
            let before = cluster_data@.take(i as int);
            let after = cluster_data@.take(i + 1);
            assert(after.drop_last() =~= before);
            assert(after.last() == entry);
            assert(entry.wf());
            lemma_totals_bounds(before, entry.cluster_number);
            lemma_totals_bounds(after, entry.cluster_number);
            lemma_total_weight_prefix(cluster_data@, i as int);
            lemma_total_weight_prefix(cluster_data@, i + 1);
            assert(sums[label as int] == cluster_totals(before, label as u32).center());
        }
        let updated = ClusterCenter {
            sum: WeightedColor {
                r: acc.sum.r + entry.weighted_colors.r,
                g: acc.sum.g + entry.weighted_colors.g,
                b: acc.sum.b + entry.weighted_colors.b,
            },
            weight: acc.weight + entry.histogram_point.weight,
        };
        sums.set(label, updated);
        i += 1;
    }
    assert(cluster_data@.take(n as int) =~= cluster_data@);
    let mut c: usize = 0;
    while c < k
        invariant
            c <= k,
            k == number_of_clusters,
            sums.len() == k,
            assignment_wf(cluster_data@, k as nat),
            forall|j: int|
                0 <= j < k ==> #[trigger] sums[j] == cluster_totals(cluster_data@, j as u32).center(),
            forall|j: int| 0 <= j < c ==> (#[trigger] sums[j]).weight > 0,
        decreases k - c,
    {
        proof {
            lemma_totals_bounds(cluster_data@, c as u32);
        }
        if sums[c].weight == 0 {
            assert(cluster_totals(cluster_data@, c as u32).weight == 0);
            return None;
        }
        c += 1;
    }
    proof {
        assert forall|c: u32| c < k implies (#[trigger] cluster_totals(cluster_data@, c)).weight
            != 0 by {
            lemma_totals_bounds(cluster_data@, c);
            assert(sums[c as int].weight > 0);
        }
        assert(sums@ =~= mean_centers(cluster_data@, k as nat));
        assert forall|c: int| 0 <= c < sums.len() implies (#[trigger] sums[c]).wf() by {
            lemma_totals_bounds(cluster_data@, c as u32);
        }
    }
    Some(sums)
}

proof fn lemma_push_contains(s: Seq<u32>, x: u32, c: u32)
    ensures
        s.push(x).contains(c) <==> (s.contains(c) || x == c),
{
    if s.push(x).contains(c) {
        let i = choose|i: int| 0 <= i < s.push(x).len() && s.push(x)[i] == c;
        if i < s.len() {
            assert(s[i] == c);
        }
    }
    if s.contains(c) {
        let i = choose|i: int| 0 <= i < s.len() && s[i] == c;
        assert(s.push(x)[i] == c);
    }
    if x == c {
        assert(s.push(x)[s.len() as int] == c);
    }
}

/// Assigns every entry to its nearest center. Gives nothing back if no
/// entry changes its cluster, or if a cluster is left without members.
pub fn calc_data_clusters(cluster_data: &Vec<ClusterEntry>, cluster_centers: &Vec<ClusterCenter>) -> (labels:
    Option<Vec<u32>>)
    requires
        cluster_centers.len() <= u32::MAX,
        cluster_data.len() == 0 || cluster_centers.len() > 0,
        forall|c: int| 0 <= c < cluster_centers.len() ==> (#[trigger] cluster_centers[c]).wf(),
    ensures
        match labels {
            Some(v) => spec_reassign(cluster_data@, cluster_centers@) == Some(v@),
            None => spec_reassign(cluster_data@, cluster_centers@) is None,
        },
        labels matches Some(v) ==> forall|i: int|
            0 <= i < v.len() ==> (#[trigger] v[i]) < cluster_centers.len(),
{
    let n: usize = cluster_data.len();
    let k: usize = cluster_centers.len();
    let mut seen: Vec<bool> = Vec::new();
    let mut c: usize = 0;
    while c < k
        invariant
            c <= k,
            seen.len() == c,
            forall|j: int| 0 <= j < c ==> !(#[trigger] seen[j]),
        decreases k - c,
    {
        seen.push(false);
        c += 1;
    }
    let mut new_data_clusters: Vec<u32> = Vec::new();
    let mut changed: bool = false;
    let mut i: usize = 0;
    assert(new_data_clusters@ =~= labels_of(cluster_data@.take(0)));
    while i < n
        invariant
            i <= n,
            n == cluster_data.len(),
            k == cluster_centers.len(),
            k <= u32::MAX,
            n == 0 || k > 0,
            forall|c: int| 0 <= c < cluster_centers.len() ==> (#[trigger] cluster_centers[c]).wf(),
            new_data_clusters@ == nearest_labels(cluster_data@.take(i as int), cluster_centers@),
            forall|j: int| 0 <= j < i ==> (#[trigger] new_data_clusters[j]) < k,
            changed <==> new_data_clusters@ != labels_of(cluster_data@.take(i as int)),
            seen.len() == k,
            forall|c: int| 0 <= c < k ==> (#[trigger] seen[c]) == new_data_clusters@.contains(c as u32),
        decreases n - i,
    {
        let entry = cluster_data[i];
        let index = nearest_center_index(&entry.histogram_point.color, cluster_centers);
        let new_cluster_number: u32 = index as u32;
        proof {
            let before = cluster_data@.take(i as int);
            let after = cluster_data@.take(i + 1);
            assert(after.drop_last() =~= before);
            assert(nearest_labels(after, cluster_centers@) =~= nearest_labels(
                before,
                cluster_centers@,
            ).push(new_cluster_number));
            assert(labels_of(after) =~= labels_of(before).push(entry.cluster_number));
            assert forall|c: int| 0 <= c < k implies #[trigger] seen@.update(index as int, true)[c]
                == new_data_clusters@.push(new_cluster_number).contains(c as u32) by {
                lemma_push_contains(new_data_clusters@, new_cluster_number, c as u32);
            }
            let old_labels = labels_of(before);
            let new_labels = new_data_clusters@;
            if new_labels == old_labels {
                if new_cluster_number != entry.cluster_number {
                    assert(new_labels.push(new_cluster_number)[i as int] != old_labels.push(
                        entry.cluster_number,
                    )[i as int]);
                }
            } else {
                assert(new_labels.push(new_cluster_number).drop_last() =~= new_labels);
                assert(old_labels.push(entry.cluster_number).drop_last() =~= old_labels);
            }
        }
        if entry.cluster_number != new_cluster_number {
            changed = true;
        }
        new_data_clusters.push(new_cluster_number);
        seen.set(index, true);
        i += 1;
    }
    assert(cluster_data@.take(n as int) =~= cluster_data@);
    if !changed {
        return None;
    }
    let mut c: usize = 0;
    while c < k
        invariant
            c <= k,
            k == cluster_centers.len(),
            k <= u32::MAX,
            seen.len() == k,
            new_data_clusters@ == nearest_labels(cluster_data@, cluster_centers@),
            new_data_clusters@ != labels_of(cluster_data@),
            forall|c: int| 0 <= c < k ==> (#[trigger] seen[c]) == new_data_clusters@.contains(c as u32),
            forall|j: int| 0 <= j < c ==> #[trigger] seen[j],
        decreases k - c,
    {
        if !seen[c] {
            assert(!new_data_clusters@.contains(c as u32));
            return None;
        }
        c += 1;
    }
    proof {
        assert forall|c: u32| c < k implies #[trigger] new_data_clusters@.contains(c) by {
            assert(seen[c as int]);
        }
    }
    Some(new_data_clusters)
}

/// Gives every entry the cluster number that `labels` holds for it.
fn apply_labels(cluster_data: &mut Vec<ClusterEntry>, labels: &Vec<u32>)
    requires
        old(cluster_data).len() == labels.len(),
    ensures
        final(cluster_data)@ == relabeled(old(cluster_data)@, labels@),
{
    let n: usize = cluster_data.len();
    let ghost before = cluster_data@;
    let mut i: usize = 0;
    while i < n
        invariant
            i <= n,
            n == labels.len(),
            cluster_data.len() == n,
            before.len() == n,
            forall|j: int| 0 <= j < i ==> #[trigger] cluster_data[j] == relabeled(before, labels@)[j],
            forall|j: int| i <= j < n ==> #[trigger] cluster_data[j] == before[j],
        decreases n - i,
    {
        let mut entry = cluster_data[i];
        entry.cluster_number = labels[i];
        cluster_data.set(i, entry);
        i += 1;
    }
    assert(cluster_data@ =~= relabeled(before, labels@));
}

/// Counts the members of each cluster and pairs the counts with the colors
/// of the centers.
fn build_palette(cluster_data: &Vec<ClusterEntry>, cluster_centers: &Vec<ClusterCenter>) -> (palette:
    Vec<ColorPoint>)
    requires
        cluster_centers.len() <= u32::MAX,
        forall|c: int| 0 <= c < cluster_centers.len() ==> (#[trigger] cluster_centers[c]).wf(),
        forall|i: int|
            0 <= i < cluster_data.len() ==> (#[trigger] cluster_data[i]).cluster_number
                < cluster_centers.len(),
    ensures
        palette@ == spec_palette(Clustering { data: cluster_data@, centers: cluster_centers@ }),
{
    let n: usize = cluster_data.len();
    let k: usize = cluster_centers.len();
    let mut counts: Vec<usize> = Vec::new();
    let mut c: usize = 0;
    while c < k
        invariant
            c <= k,
            counts.len() == c,
            forall|j: int| 0 <= j < c ==> (#[trigger] counts[j]) == 0,
        decreases k - c,
    {
        counts.push(0);
        c += 1;
    }
    let mut i: usize = 0;
    while i < n
        invariant
            i <= n,
            n == cluster_data.len(),
            k == cluster_centers.len(),
            k <= u32::MAX,
            counts.len() == k,
            forall|i: int| 0 <= i < cluster_data.len() ==> (#[trigger] cluster_data[i]).cluster_number < k,
            forall|j: int|
                0 <= j < k ==> (#[trigger] counts[j]) == cluster_totals(
                    cluster_data@.take(i as int),
                    j as u32,
                ).size,
        decreases n - i,
    {
        let label: usize = cluster_data[i].cluster_number as usize;
        proof {
            assert(cluster_data@.take(i + 1).drop_last() =~= cluster_data@.take(i as int));
            lemma_totals_bounds(cluster_data@.take(i as int), label as u32);
        }
        let count: usize = counts[label];
        counts.set(label, count + 1);
        i += 1;
    }
    assert(cluster_data@.take(n as int) =~= cluster_data@);
    let mut palette: Vec<ColorPoint> = Vec::new();
    let mut c: usize = 0;
    while c < k
        invariant
            c <= k,
            n == cluster_data.len(),
            k == cluster_centers.len(),
            counts.len() == k,
            forall|c: int| 0 <= c < cluster_centers.len() ==> (#[trigger] cluster_centers[c]).wf(),
            forall|j: int|
                0 <= j < k ==> (#[trigger] counts[j]) == cluster_totals(cluster_data@, j as u32).size,
            palette.len() == c,
            forall|j: int|
                0 <= j < c ==> #[trigger] palette[j] == spec_palette(
                    Clustering { data: cluster_data@, centers: cluster_centers@ },
                )[j],
        decreases k - c,
    {
        palette.push(ColorPoint::new(cluster_centers[c].to_color(), counts[c], n));
        c += 1;
    }
    assert(palette@ =~= spec_palette(Clustering { data: cluster_data@, centers: cluster_centers@ }));
    palette
}

/// Clusters the entries, starting from the assignment they come with and
/// with all centers at the origin, in at most `max_try_count` rounds.
pub fn cluster_from(cluster_data: Vec<ClusterEntry>, number_of_clusters: u32, max_try_count: u32) -> (palette:
    Vec<ColorPoint>)
    requires
        assignment_wf(cluster_data@, number_of_clusters as nat),
    ensures
        cluster_data.len() == 0 ==> palette.len() == 0,
        cluster_data.len() > 0 ==> palette@ == spec_palette(
            iterate(cluster_data@, zero_centers(number_of_clusters as nat), max_try_count as nat),
        ),
        cluster_data.len() > 0 ==> palette.len() == number_of_clusters,
        total_members(palette@) == cluster_data.len(),
        forall|c: int| 0 <= c < palette.len() ==> (#[trigger] palette[c]).total == cluster_data.len(),
{
    let mut cluster_data = cluster_data;
    if cluster_data.len() < 1 {
        return Vec::new();
    }
    let ghost initial = cluster_data@;
    let ghost k = number_of_clusters as nat;
    let mut cluster_centers = allocate_centers(number_of_clusters);
    let mut try_counter: u32 = 0;
    while try_counter < max_try_count
        invariant_except_break
            iterate(cluster_data@, cluster_centers@, (max_try_count - try_counter) as nat) == iterate(
                initial,
                zero_centers(k),
                max_try_count as nat,
            ),
        invariant
            try_counter <= max_try_count,
            k == number_of_clusters,
            cluster_data.len() > 0,
            cluster_data.len() == initial.len(),
            assignment_wf(cluster_data@, k),
            cluster_centers.len() == k,
            forall|c: int| 0 <= c < cluster_centers.len() ==> (#[trigger] cluster_centers[c]).wf(),
        ensures
            (Clustering { data: cluster_data@, centers: cluster_centers@ }) == iterate(
                initial,
                zero_centers(k),
                max_try_count as nat,
            ),
        decreases max_try_count - try_counter,
    {
        match calc_cluster_centers(&cluster_data, number_of_clusters) {
            Some(new_cluster_centers) => {
                cluster_centers = new_cluster_centers;
            },
            None => {
                break ;
            },
        }
        match calc_data_clusters(&cluster_data, &cluster_centers) {
            Some(data_clusters) => {
                proof {
                    lemma_relabeled_wf(cluster_data@, data_clusters@, k);
                }
                apply_labels(&mut cluster_data, &data_clusters);
            },
            None => {
                break ;
            },
        }
        try_counter += 1;
    }
    proof {
        lemma_palette_members(Clustering { data: cluster_data@, centers: cluster_centers@ });
    }
    build_palette(&cluster_data, &cluster_centers)
}

/// A cluster number that `rand::thread_rng().gen_range(0..number_of_clusters)`
/// draws. The range must not be empty, or `gen_range` panics. All that is
/// claimed of the number is that it lies in the range. (`thread_rng` itself
/// panics where the system cannot seed it.)
#[verifier::external_body]
fn random_cluster_number(number_of_clusters: u32) -> (number: u32)
    requires
        number_of_clusters > 0,
    ensures
        number < number_of_clusters,
{
    rand::thread_rng().gen_range(0..number_of_clusters)
}

/// The first assignment: the first `number_of_clusters` entries of the
/// histogram seed one cluster each, and every other entry goes to a cluster
/// drawn at random. With no entries or no clusters there is nothing to
/// assign.
pub fn init_cluster_data(histogram: &Histogram, number_of_clusters: u32) -> (cluster_data: Vec<
    ClusterEntry,
>)
    requires
        histogram.wf(),
    ensures
        (histogram@.len() == 0 || number_of_clusters == 0) ==> cluster_data.len() == 0,
        (histogram@.len() > 0 && number_of_clusters > 0) ==> seeded(
            cluster_data@,
            histogram@,
            number_of_clusters as nat,
        ),
        assignment_wf(cluster_data@, number_of_clusters as nat),
{
    let entries = histogram.to_vec();
    let mut cluster_data: Vec<ClusterEntry> = Vec::new();
    if entries.len() < 1 || number_of_clusters == 0 {
        assert(points_of(cluster_data@) =~= Seq::<HistogramEntry>::empty());
        proof {
            lemma_total_weight_is_count(cluster_data@);
        }
        return cluster_data;
    }
    let mut i: usize = 0;
    while i < entries.len()
        invariant
            i <= entries.len(),
            number_of_clusters > 0,
            entries@ == histogram@,
            cluster_data.len() == i,
            points_of(cluster_data@) == entries@.take(i as int),
            forall|j: int|
                0 <= j < i ==> {
                    &&& (#[trigger] cluster_data[j]).wf()
                    &&& cluster_data[j].cluster_number < number_of_clusters
                    &&& (j < number_of_clusters ==> cluster_data[j].cluster_number == j)
                },
        decreases entries.len() - i,
    {
        let cluster_number: u32 = if i < number_of_clusters as usize {
            i as u32
        } else {
            random_cluster_number(number_of_clusters)
        };
        let entry = ClusterEntry::new(entries[i], cluster_number);
        proof {
            assert(points_of(cluster_data@.push(entry)) =~= entries@.take(i + 1));
        }
        cluster_data.push(entry);
        i += 1;
    }
    proof {
        assert(entries@.take(entries.len() as int) =~= entries@);
        lemma_total_weight_is_count(cluster_data@);
    }
    cluster_data
}

/// The first assignment with the numbers `drawn` in place of the random
/// ones: the first `number_of_clusters` entries of the histogram seed one
/// cluster each, and every other entry goes to the cluster that `drawn`
/// holds for it.
pub fn seed_cluster_data(histogram: &Histogram, number_of_clusters: u32, drawn: &Vec<u32>) -> (cluster_data:
    Vec<ClusterEntry>)
    requires
        histogram.wf(),
    ensures
        (histogram@.len() == 0 || number_of_clusters == 0) ==> cluster_data.len() == 0,
        (histogram@.len() > 0 && number_of_clusters > 0) ==> cluster_data@ == seeded_with(
            histogram@,
            number_of_clusters as nat,
            drawn@,
        ),
        assignment_wf(cluster_data@, number_of_clusters as nat),
{
    let entries = histogram.to_vec();
    let mut cluster_data: Vec<ClusterEntry> = Vec::new();
    if entries.len() < 1 || number_of_clusters == 0 {
        assert(points_of(cluster_data@) =~= Seq::<HistogramEntry>::empty());
        proof {
            lemma_total_weight_is_count(cluster_data@);
        }
        return cluster_data;
    }
    let ghost k = number_of_clusters as nat;
    let seeds: usize = number_of_clusters as usize;
    let mut i: usize = 0;
    while i < entries.len()
        invariant
            i <= entries.len(),
            number_of_clusters > 0,
            k == number_of_clusters,
            seeds == number_of_clusters,
            entries@ == histogram@,
            cluster_data.len() == i,
            forall|j: int| 0 <= j < i ==> #[trigger] cluster_data[j] == seeded_with(entries@, k, drawn@)[j],
        decreases entries.len() - i,
    {
        let cluster_number: u32 = if i < seeds {
            i as u32
        } else if i - seeds < drawn.len() {
            drawn[i - seeds] % number_of_clusters
        } else {
            0
        };
        let entry = ClusterEntry::new(entries[i], cluster_number);
        cluster_data.push(entry);
        i += 1;
    }
    proof {
        assert(cluster_data@ =~= seeded_with(histogram@, k, drawn@));
        lemma_seeded_with(histogram@, k, drawn@);
        assert(points_of(cluster_data@) == histogram@);
        lemma_total_weight_is_count(cluster_data@);
    }
    cluster_data
}

/// The dominant colors of the histogram, with the numbers `drawn` in place
/// of the random ones: the same histogram and the same numbers give the
/// same palette.
pub fn cluster_with(
    histogram: &Histogram,
    number_of_clusters: u32,
    max_try_count: u32,
    drawn: &Vec<u32>,
) -> (palette: Vec<ColorPoint>)
    requires
        histogram.wf(),
    ensures
        (histogram@.len() == 0 || number_of_clusters == 0) ==> palette.len() == 0,
        (histogram@.len() > 0 && number_of_clusters > 0) ==> palette@ == spec_palette(
            iterate(
                seeded_with(histogram@, number_of_clusters as nat, drawn@),
                zero_centers(number_of_clusters as nat),
                max_try_count as nat,
            ),
        ),
        (histogram@.len() > 0 && number_of_clusters > 0) ==> palette.len() == number_of_clusters,
        palette.len() > 0 ==> total_members(palette@) == histogram@.len(),
        forall|c: int| 0 <= c < palette.len() ==> (#[trigger] palette[c]).total == histogram@.len(),
{
    let cluster_data = seed_cluster_data(histogram, number_of_clusters, drawn);
    cluster_from(cluster_data, number_of_clusters, max_try_count)
}

/// The dominant colors of the histogram: a palette of `number_of_clusters`
/// colors, found by clustering the distinct colors in at most
/// `max_try_count` rounds from a first assignment that is partly drawn at
/// random. With no colors or no clusters the palette is empty.
pub fn cluster(histogram: &Histogram, number_of_clusters: u32, max_try_count: u32) -> (palette: Vec<
    ColorPoint,
>)
    requires
        histogram.wf(),
    ensures
        (histogram@.len() == 0 || number_of_clusters == 0) ==> palette.len() == 0,
        (histogram@.len() > 0 && number_of_clusters > 0) ==> palette.len() == number_of_clusters,
        (histogram@.len() > 0 && number_of_clusters > 0) ==> exists|initial: Seq<ClusterEntry>|
            #[trigger] seeded(initial, histogram@, number_of_clusters as nat) && palette@
                == spec_palette(
                iterate(initial, zero_centers(number_of_clusters as nat), max_try_count as nat),
            ),
        palette.len() > 0 ==> total_members(palette@) == histogram@.len(),
        forall|c: int| 0 <= c < palette.len() ==> (#[trigger] palette[c]).total == histogram@.len(),
{
    let cluster_data = init_cluster_data(histogram, number_of_clusters);
    let ghost initial = cluster_data@;
    proof {
        if histogram@.len() > 0 && number_of_clusters > 0 {
            assert(seeded(initial, histogram@, number_of_clusters as nat));
            assert(points_of(initial).len() == histogram@.len());
        }
    }
    cluster_from(cluster_data, number_of_clusters, max_try_count)
}

} // verus!
