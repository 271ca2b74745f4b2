//! What the clustering obeys: what a palette adds up to, what the special
//! cases give, and that the cost never rises.

use crate::img_utils::color_point::ColorPoint;
use crate::img_utils::histogram::HistogramEntry;
use crate::img_utils::rgb_color::RgbColor;
use crate::kmeans::center::{
    is_nearest, lemma_nearest_exists, lemma_nearest_unique, nearest_center, spec_squared_distance,
    ClusterCenter,
};
use crate::kmeans::model::{
    assignment_wf, cluster_totals, has_empty_cluster, iterate, labels_of,
    lemma_members_below_all, lemma_total_weight_same_points, lemma_totals_bounds, mean_centers,
    members_below, nearest_labels, points_of, relabeled, seeded, spec_centers, spec_palette,
    spec_reassign, total_members, total_weight, zero_centers, ClusterEntry, ClusterTotals,
    Clustering,
};
use vstd::prelude::*;

verus! {

proof fn lemma_palette_prefix_members(clustering: Clustering, j: nat)
    requires
        j <= clustering.centers.len(),
        clustering.data.len() <= usize::MAX,
    ensures
        total_members(spec_palette(clustering).take(j as int)) == members_below(clustering.data, j),
    decreases j,
{
    if j > 0 {
        lemma_palette_prefix_members(clustering, (j - 1) as nat);
        lemma_totals_bounds(clustering.data, (j - 1) as u32);
        assert(spec_palette(clustering).take(j as int).drop_last() =~= spec_palette(clustering).take(
            j - 1,
        ));
    }
}

/// Every entry is counted under exactly one color of the palette: the
/// member counts add up to the number of entries, which every palette
/// entry holds as its total. The weights of a palette therefore add up to
/// one (`lemma_weights_sum`).
pub proof fn lemma_palette_members(clustering: Clustering)
    requires
        clustering.data.len() <= usize::MAX,
        clustering.centers.len() <= u32::MAX,
        forall|i: int|
            0 <= i < clustering.data.len() ==> (#[trigger] clustering.data[i]).cluster_number
                < clustering.centers.len(),
    ensures
        spec_palette(clustering).len() == clustering.centers.len(),
        total_members(spec_palette(clustering)) == clustering.data.len(),
        forall|c: int|
            0 <= c < spec_palette(clustering).len() ==> (#[trigger] spec_palette(
                clustering,
            )[c]).total == clustering.data.len(),
{
    let palette = spec_palette(clustering);
    lemma_palette_prefix_members(clustering, clustering.centers.len());
    assert(palette.take(palette.len() as int) =~= palette);
    lemma_members_below_all(clustering.data, clustering.centers.len());
}

/// The weights of a palette, added up.
pub open spec fn weight_sum(palette: Seq<ColorPoint>) -> real
    decreases palette.len(),
{
    if palette.len() == 0 {
        0real
    } else {
        weight_sum(palette.drop_last()) + palette.last().weight()
    }
}

/// Where all entries of a palette hold the same positive total, their
/// weights add up to the member counts over that total: to one, where the
/// member counts add up to the total.
pub proof fn lemma_weights_sum(palette: Seq<ColorPoint>, total: nat)
    requires
        total > 0,
        forall|c: int| 0 <= c < palette.len() ==> (#[trigger] palette[c]).total == total,
    ensures
        weight_sum(palette) == (total_members(palette) as real) / (total as real),
        total_members(palette) == total ==> weight_sum(palette) == 1real,
    decreases palette.len(),
{
    if palette.len() > 0 {
        lemma_weights_sum(palette.drop_last(), total);
        let rest = total_members(palette.drop_last());
        let members = palette.last().members as nat;
        assert((rest as real) / (total as real) + (members as real) / (total as real) == ((rest
            + members) as real) / (total as real)) by (nonlinear_arith)
            requires
                total > 0,
        ;
    } else {
        assert(0real == (0nat as real) / (total as real)) by (nonlinear_arith)
            requires
                total > 0,
        ;
    }
    assert((total as real) / (total as real) == 1real) by (nonlinear_arith)
        requires
            total > 0,
    ;
}

/// The center of a cluster is the weighted mean of its members: channel
/// by channel, the sum of the channel values, each counted as often as the
/// color has pixels, over the number of pixels.
pub proof fn lemma_center_is_weighted_mean(data: Seq<ClusterEntry>, c: u32)
    requires
        total_weight(data) <= u64::MAX,
        cluster_totals(data, c).weight > 0,
    ensures
        cluster_totals(data, c).center().wf(),
        cluster_totals(data, c).center().red() == (cluster_totals(data, c).r as real) / (
        cluster_totals(data, c).weight as real),
        cluster_totals(data, c).center().green() == (cluster_totals(data, c).g as real) / (
        cluster_totals(data, c).weight as real),
        cluster_totals(data, c).center().blue() == (cluster_totals(data, c).b as real) / (
        cluster_totals(data, c).weight as real),
{
    lemma_totals_bounds(data, c);
}

/// With at least one center, every nearest label names a center.
pub proof fn lemma_nearest_labels_in_range(data: Seq<ClusterEntry>, centers: Seq<ClusterCenter>)
    requires
        0 < centers.len() <= u32::MAX,
    ensures
        forall|i: int|
            0 <= i < data.len() ==> (#[trigger] nearest_labels(data, centers)[i]) < centers.len(),
{
    assert forall|i: int| 0 <= i < data.len() implies (#[trigger] nearest_labels(data, centers)[i])
        < centers.len() by {
        lemma_nearest_exists(data[i].histogram_point.color, centers);
    }
}

/// The rounds change nothing but cluster numbers and centers: the outcome
/// holds the same histogram entries in the same order, as many centers as
/// there were, and is a valid assignment again.
pub proof fn lemma_iterate_keeps_entries(
    data: Seq<ClusterEntry>,
    centers: Seq<ClusterCenter>,
    tries: nat,
)
    requires
        centers.len() <= u32::MAX,
        assignment_wf(data, centers.len()),
    ensures
        points_of(iterate(data, centers, tries).data) == points_of(data),
        iterate(data, centers, tries).centers.len() == centers.len(),
        assignment_wf(iterate(data, centers, tries).data, centers.len()),
    decreases tries,
{
    if tries > 0 {
        let k = centers.len();
        match spec_centers(data, k) {
            None => {},
            Some(means) => {
                match spec_reassign(data, means) {
                    None => {},
                    Some(labels) => {
                        let next = relabeled(data, labels);
                        if data.len() > 0 {
                            assert(data[0].cluster_number < k);
                            lemma_nearest_labels_in_range(data, means);
                        }
                        lemma_total_weight_same_points(data, next);
                        assert(points_of(next) =~= points_of(data));
                        lemma_iterate_keeps_entries(next, means, (tries - 1) as nat);
                    },
                }
            },
        }
    }
}

/// Without any round the palette is that of the first assignment, with
/// every color at the origin.
pub proof fn lemma_no_rounds(data: Seq<ClusterEntry>, k: nat)
    ensures
        iterate(data, zero_centers(k), 0) == (Clustering { data, centers: zero_centers(k) }),
        spec_palette(iterate(data, zero_centers(k), 0)) == Seq::new(
            k,
            |c: int|
                ColorPoint {
                    color: RgbColor { r: 0, g: 0, b: 0 },
                    members: cluster_totals(data, c as u32).size as usize,
                    total: data.len() as usize,
                },
        ),
{
    let palette = spec_palette(iterate(data, zero_centers(k), 0));
    assert forall|c: int| 0 <= c < k implies (#[trigger] palette[c]).color == (RgbColor {
        r: 0,
        g: 0,
        b: 0,
    }) by {
        assert(zero_centers(k)[c] == ClusterCenter::spec_zero());
    }
    assert(palette =~= Seq::new(
        k,
        |c: int|
            ColorPoint {
                color: RgbColor { r: 0, g: 0, b: 0 },
                members: cluster_totals(data, c as u32).size as usize,
                total: data.len() as usize,
            },
    ));
}

/// Where a cluster is empty to begin with, no round is made: the outcome
/// is the first assignment, with the centers it came with.
pub proof fn lemma_empty_cluster_stops(
    data: Seq<ClusterEntry>,
    centers: Seq<ClusterCenter>,
    tries: nat,
)
    requires
        has_empty_cluster(data, centers.len()),
    ensures
        iterate(data, centers, tries) == (Clustering { data, centers }),
{
}

proof fn lemma_seeded_totals(data: Seq<ClusterEntry>, c: u32)
    requires
        forall|i: int| 0 <= i < data.len() ==> (#[trigger] data[i]).cluster_number == i,
    ensures
        c < data.len() ==> cluster_totals(data, c).size == 1,
        c >= data.len() ==> cluster_totals(data, c) == ClusterTotals::zero(),
    decreases data.len(),
{
    if data.len() > 0 {
        lemma_seeded_totals(data.drop_last(), c);
    }
}

/// With fewer colors than clusters the first assignment leaves a cluster
/// empty, and no round is made: every color of the palette is at the
/// origin, the first clusters have one member each and the others none.
pub proof fn lemma_more_clusters_than_entries(
    data: Seq<ClusterEntry>,
    entries: Seq<HistogramEntry>,
    k: nat,
    tries: nat,
)
    requires
        seeded(data, entries, k),
        data.len() < k <= u32::MAX,
    ensures
        iterate(data, zero_centers(k), tries) == (Clustering { data, centers: zero_centers(k) }),
        spec_palette(iterate(data, zero_centers(k), tries)) == Seq::new(
            k,
            |c: int|
                ColorPoint {
                    color: RgbColor { r: 0, g: 0, b: 0 },
                    members: if c < data.len() {
                        1usize
                    } else {
                        0usize
                    },
                    total: data.len() as usize,
                },
        ),
{
    let last = (k - 1) as u32;
    lemma_seeded_totals(data, last);
    assert(cluster_totals(data, last).weight == 0);
    lemma_empty_cluster_stops(data, zero_centers(k), tries);
    lemma_no_rounds(data, k);
    let palette = spec_palette(iterate(data, zero_centers(k), tries));
    assert forall|c: int| 0 <= c < k implies (#[trigger] palette[c]).members == if c < data.len() {
        1usize
    } else {
        0usize
    } by {
        lemma_seeded_totals(data, c as u32);
    }
    assert(palette =~= Seq::new(
        k,
        |c: int|
            ColorPoint {
                color: RgbColor { r: 0, g: 0, b: 0 },
                members: if c < data.len() {
                    1usize
                } else {
                    0usize
                },
                total: data.len() as usize,
            },
    ));
}

proof fn lemma_single_cluster_totals(data: Seq<ClusterEntry>)
    requires
        forall|i: int| 0 <= i < data.len() ==> (#[trigger] data[i]).cluster_number == 0,
    ensures
        cluster_totals(data, 0).weight == total_weight(data),
        cluster_totals(data, 0).size == data.len(),
    decreases data.len(),
{
    if data.len() > 0 {
        lemma_single_cluster_totals(data.drop_last());
    }
}

/// With one cluster, one round is enough: the cluster holds every entry,
/// and its center is the weighted mean of all colors.
pub proof fn lemma_single_cluster(data: Seq<ClusterEntry>, tries: nat)
    requires
        assignment_wf(data, 1),
        total_weight(data) > 0,
        data.len() <= usize::MAX,
        tries > 0,
    ensures
        iterate(data, zero_centers(1), tries) == (Clustering {
            data,
            centers: seq![cluster_totals(data, 0).center()],
        }),
        cluster_totals(data, 0).weight == total_weight(data),
        spec_palette(iterate(data, zero_centers(1), tries)) == seq![
            ColorPoint {
                color: cluster_totals(data, 0).center().color(),
                members: data.len() as usize,
                total: data.len() as usize,
            },
        ],
{
    lemma_single_cluster_totals(data);
    let means = mean_centers(data, 1);
    assert(means =~= seq![cluster_totals(data, 0).center()]);
    assert(!has_empty_cluster(data, 1)) by {
        assert forall|c: u32| c < 1 implies (#[trigger] cluster_totals(data, c)).weight != 0 by {
            assert(c == 0);
        }
    }
    assert(spec_centers(data, 1) == Some(means));
    assert(nearest_labels(data, means) =~= labels_of(data)) by {
        assert forall|i: int| 0 <= i < data.len() implies nearest_labels(data, means)[i]
            == labels_of(data)[i] by {
            let color = data[i].histogram_point.color;
            assert(is_nearest(color, means, 0));
            lemma_nearest_unique(color, means, 0);
        }
    }
    assert(spec_reassign(data, means) is None);
    assert(zero_centers(1).len() == 1);
    let outcome = iterate(data, zero_centers(1), tries);
    assert(outcome == (Clustering { data, centers: means }));
    assert(spec_palette(outcome) =~= seq![
        ColorPoint {
            color: cluster_totals(data, 0).center().color(),
            members: data.len() as usize,
            total: data.len() as usize,
        },
    ]);
}

/// The cost of a clustering: the squared distance from every entry to the
/// center of its cluster, counted once for each pixel of the entry.
pub open spec fn cost(data: Seq<ClusterEntry>, centers: Seq<ClusterCenter>) -> real
    decreases data.len(),
{
    if data.len() == 0 {
        0real
    } else {
        cost(data.drop_last(), centers) + entry_cost(data.last(), centers)
    }
}

/// What one entry adds to the cost.
pub open spec fn entry_cost(entry: ClusterEntry, centers: Seq<ClusterCenter>) -> real {
    (entry.histogram_point.weight as real) * spec_squared_distance(
        entry.histogram_point.color,
        centers[entry.cluster_number as int],
    )
}

/// Assigning every entry to its nearest center does not raise the cost.
pub proof fn lemma_reassign_cost(data: Seq<ClusterEntry>, centers: Seq<ClusterCenter>)
    requires
        0 < centers.len() <= u32::MAX,
        forall|i: int| 0 <= i < data.len() ==> (#[trigger] data[i]).cluster_number < centers.len(),
    ensures
        cost(relabeled(data, nearest_labels(data, centers)), centers) <= cost(data, centers),
    decreases data.len(),
{
    if data.len() > 0 {
        let front = data.drop_last();
        lemma_reassign_cost(front, centers);
        let moved = relabeled(data, nearest_labels(data, centers));
        assert(moved.drop_last() =~= relabeled(front, nearest_labels(front, centers)));
        let entry = data.last();
        let color = entry.histogram_point.color;
        lemma_nearest_exists(color, centers);
        let j = nearest_center(color, centers);
        assert(moved.last().cluster_number == j);
        let near = spec_squared_distance(color, centers[j]);
        let far = spec_squared_distance(color, centers[entry.cluster_number as int]);
        assert(near <= far);
        let w = entry.histogram_point.weight as real;
        assert(w * near <= w * far) by (nonlinear_arith)
            requires
                w >= 0real,
                near <= far,
        ;
    }
}

/// How much more one channel of the members of a cluster costs around `p`
/// than around `m`, where the members have the weight `tw` and the weighted
/// channel sum `t`.
spec fn channel_gap(tw: real, t: real, p: real, m: real) -> real {
    tw * (p * p - m * m) - 2real * (t * (p - m))
}

/// How much more the members of one cluster cost around `p` than around `m`.
spec fn gap_term(t: ClusterTotals, p: ClusterCenter, m: ClusterCenter) -> real {
    channel_gap(t.weight as real, t.r as real, p.red(), m.red()) + channel_gap(
        t.weight as real,
        t.g as real,
        p.green(),
        m.green(),
    ) + channel_gap(t.weight as real, t.b as real, p.blue(), m.blue())
}

spec fn gap_below(
    data: Seq<ClusterEntry>,
    p: Seq<ClusterCenter>,
    m: Seq<ClusterCenter>,
    k: nat,
) -> real
    decreases k,
{
    if k == 0 {
        0real
    } else {
        gap_below(data, p, m, (k - 1) as nat) + gap_term(
            cluster_totals(data, (k - 1) as u32),
            p[k - 1],
            m[k - 1],
        )
    }
}

proof fn lemma_channel_gap_step(tw: real, t: real, w: real, x: real, p: real, m: real)
    ensures
        channel_gap(tw + w, t + x * w, p, m) == channel_gap(tw, t, p, m) + w * ((x - p) * (x - p))
            - w * ((x - m) * (x - m)),
{
    let a = p * p - m * m;
    let d = p - m;
    let sp = (x - p) * (x - p);
    let sm = (x - m) * (x - m);
    let xd = x * d;
    assert((tw + w) * a == tw * a + w * a) by (nonlinear_arith);
    assert((t + x * w) * d == t * d + (x * w) * d) by (nonlinear_arith);
    assert(sp - sm == a - 2real * xd) by (nonlinear_arith)
        requires
            a == p * p - m * m,
            sp == (x - p) * (x - p),
            sm == (x - m) * (x - m),
            xd == x * (p - m),
    ;
    assert(w * sp - w * sm == w * (sp - sm)) by (nonlinear_arith);
    assert(w * (a - 2real * xd) == w * a - 2real * (w * xd)) by (nonlinear_arith);
    assert(w * xd == (x * w) * d) by (nonlinear_arith)
        requires
            xd == x * d,
    ;
}

proof fn lemma_channel_gap_of_mean(w: real, t: real, p: real)
    requires
        w > 0real,
    ensures
        channel_gap(w, t, p, t / w) >= 0real,
{
    let m = t / w;
    let d = p - m;
    assert(t == m * w) by (nonlinear_arith)
        requires
            w > 0real,
            m == t / w,
    ;
    assert(w * (p * p - m * m) - 2real * ((m * w) * (p - m)) == w * ((p - m) * (p - m)))
        by (nonlinear_arith);
    assert(w * ((p - m) * (p - m)) >= 0real) by (nonlinear_arith)
        requires
            w > 0real,
    ;
}

proof fn lemma_weighted_distance(w: real, color: RgbColor, center: ClusterCenter)
    ensures
        w * spec_squared_distance(color, center) == w * ((color.r as real - center.red()) * (
        color.r as real - center.red())) + w * ((color.g as real - center.green()) * (color.g as real
            - center.green())) + w * ((color.b as real - center.blue()) * (color.b as real
            - center.blue())),
{
    let a = (color.r as real - center.red()) * (color.r as real - center.red());
    let b = (color.g as real - center.green()) * (color.g as real - center.green());
    let c = (color.b as real - center.blue()) * (color.b as real - center.blue());
    assert(w * (a + b + c) == w * a + w * b + w * c) by (nonlinear_arith);
}

proof fn lemma_real_product(x: nat, w: nat)
    ensures
        ((x * w) as real) == (x as real) * (w as real),
{
    assert(((x * w) as real) == (x as real) * (w as real)) by (nonlinear_arith);
}

proof fn lemma_gap_term_step(t: ClusterTotals, entry: ClusterEntry, p: ClusterCenter, m: ClusterCenter)
    ensures
        gap_term(t.with(entry.histogram_point), p, m) == gap_term(t, p, m) + (
        entry.histogram_point.weight as real) * spec_squared_distance(
            entry.histogram_point.color,
            p,
        ) - (entry.histogram_point.weight as real) * spec_squared_distance(
            entry.histogram_point.color,
            m,
        ),
{
    let point = entry.histogram_point;
    let w = point.weight as real;
    let xr = point.color.r as real;
    let xg = point.color.g as real;
    let xb = point.color.b as real;
    let tw = t.weight as real;
    let u = t.with(point);
    lemma_real_product(point.color.r as nat, point.weight as nat);
    lemma_real_product(point.color.g as nat, point.weight as nat);
    lemma_real_product(point.color.b as nat, point.weight as nat);
    assert((u.weight as real) == tw + w);
    assert((u.r as real) == t.r as real + xr * w);
    assert((u.g as real) == t.g as real + xg * w);
    assert((u.b as real) == t.b as real + xb * w);
    lemma_channel_gap_step(tw, t.r as real, w, xr, p.red(), m.red());
    lemma_channel_gap_step(tw, t.g as real, w, xg, p.green(), m.green());
    lemma_channel_gap_step(tw, t.b as real, w, xb, p.blue(), m.blue());
    lemma_weighted_distance(w, point.color, p);
    lemma_weighted_distance(w, point.color, m);
}

proof fn lemma_gap_below_step(
    data: Seq<ClusterEntry>,
    p: Seq<ClusterCenter>,
    m: Seq<ClusterCenter>,
    k: nat,
)
    requires
        data.len() > 0,
        k <= u32::MAX + 1,
    ensures
        gap_below(data, p, m, k) == gap_below(data.drop_last(), p, m, k) + if data.last().cluster_number
            < k {
            entry_cost(data.last(), p) - entry_cost(data.last(), m)
        } else {
            0real
        },
    decreases k,
{
    if k > 0 {
        lemma_gap_below_step(data, p, m, (k - 1) as nat);
        let c = (k - 1) as u32;
        if data.last().cluster_number == c {
            lemma_gap_term_step(cluster_totals(data.drop_last(), c), data.last(), p[k - 1], m[k - 1]);
        }
    }
}

proof fn lemma_gap_below_empty(
    data: Seq<ClusterEntry>,
    p: Seq<ClusterCenter>,
    m: Seq<ClusterCenter>,
    k: nat,
)
    requires
        data.len() == 0,
    ensures
        gap_below(data, p, m, k) == 0real,
    decreases k,
{
    if k > 0 {
        lemma_gap_below_empty(data, p, m, (k - 1) as nat);
        lemma_channel_gap_zero(p[k - 1].red(), m[k - 1].red());
        lemma_channel_gap_zero(p[k - 1].green(), m[k - 1].green());
        lemma_channel_gap_zero(p[k - 1].blue(), m[k - 1].blue());
    }
}

proof fn lemma_channel_gap_zero(p: real, m: real)
    ensures
        channel_gap(0nat as real, 0nat as real, p, m) == 0real,
{
    let a = p * p - m * m;
    let d = p - m;
    assert(0real * a == 0real) by (nonlinear_arith);
    assert(0real * d == 0real) by (nonlinear_arith);
}

proof fn lemma_cost_gap(
    data: Seq<ClusterEntry>,
    p: Seq<ClusterCenter>,
    m: Seq<ClusterCenter>,
    k: nat,
)
    requires
        k <= u32::MAX + 1,
        forall|i: int| 0 <= i < data.len() ==> (#[trigger] data[i]).cluster_number < k,
    ensures
        cost(data, p) - cost(data, m) == gap_below(data, p, m, k),
    decreases data.len(),
{
    if data.len() > 0 {
        lemma_cost_gap(data.drop_last(), p, m, k);
        lemma_gap_below_step(data, p, m, k);
    } else {
        lemma_gap_below_empty(data, p, m, k);
    }
}

proof fn lemma_gap_term_of_mean(t: ClusterTotals, p: ClusterCenter)
    requires
        0 < t.weight <= u64::MAX,
        t.r <= t.weight * u32::MAX,
        t.g <= t.weight * u32::MAX,
        t.b <= t.weight * u32::MAX,
    ensures
        gap_term(t, p, t.center()) >= 0real,
{
    let w = t.weight as real;
    lemma_channel_gap_of_mean(w, t.r as real, p.red());
    lemma_channel_gap_of_mean(w, t.g as real, p.green());
    lemma_channel_gap_of_mean(w, t.b as real, p.blue());
}

proof fn lemma_gap_of_means(data: Seq<ClusterEntry>, p: Seq<ClusterCenter>, k: nat, j: nat)
    requires
        j <= k <= u32::MAX,
        total_weight(data) <= u64::MAX,
        !has_empty_cluster(data, k),
    ensures
        gap_below(data, p, mean_centers(data, k), j) >= 0real,
    decreases j,
{
    if j > 0 {
        lemma_gap_of_means(data, p, k, (j - 1) as nat);
        let c = (j - 1) as u32;
        let t = cluster_totals(data, c);
        lemma_totals_bounds(data, c);
        assert(t.weight != 0);
        assert(mean_centers(data, k)[j - 1] == t.center());
        lemma_gap_term_of_mean(t, p[j - 1]);
    }
}

/// For a given assignment no centers cost less than the weighted means of
/// the clusters.
pub proof fn lemma_means_minimize_cost(data: Seq<ClusterEntry>, centers: Seq<ClusterCenter>)
    requires
        centers.len() <= u32::MAX,
        assignment_wf(data, centers.len()),
        spec_centers(data, centers.len()) is Some,
    ensures
        cost(data, mean_centers(data, centers.len())) <= cost(data, centers),
{
    let k = centers.len();
    lemma_cost_gap(data, centers, mean_centers(data, k), k);
    lemma_gap_of_means(data, centers, k, k);
}

/// From one round to the next the cost does not rise: the cost of the next
/// assignment around its own means is at most the cost of this assignment
/// around its means.
pub proof fn lemma_round_cost(data: Seq<ClusterEntry>, k: nat)
    requires
        k <= u32::MAX,
        assignment_wf(data, k),
        spec_centers(data, k) is Some,
        spec_reassign(data, mean_centers(data, k)) is Some,
        spec_centers(relabeled(data, nearest_labels(data, mean_centers(data, k))), k) is Some,
    ensures
        ({
            let means = mean_centers(data, k);
            let next = relabeled(data, nearest_labels(data, means));
            cost(next, mean_centers(next, k)) <= cost(data, means)
        }),
{
    let means = mean_centers(data, k);
    let labels = nearest_labels(data, means);
    let next = relabeled(data, labels);
    if data.len() > 0 {
        assert(data[0].cluster_number < k);
        lemma_reassign_cost(data, means);
        lemma_nearest_labels_in_range(data, means);
        lemma_total_weight_same_points(data, next);
        lemma_means_minimize_cost(next, means);
    } else {
        assert(next =~= data);
    }
}

} // verus!
