use image_base_colors::img_utils::color_point::ColorPoint;
use image_base_colors::img_utils::histogram::{Histogram, HistogramEntry};
use image_base_colors::img_utils::rgb_color::RgbColor;
use image_base_colors::kmeans::center::{
    min_distance_index, nearest_center_index, squared_distance, ClusterCenter, Distance,
    WeightedColor,
};
use image_base_colors::kmeans::histogram_k_means::{
    allocate_centers, calc_cluster_centers, calc_data_clusters, cluster, cluster_from,
    cluster_with, init_cluster_data, seed_cluster_data,
};
use image_base_colors::kmeans::model::ClusterEntry;

fn histogram_of(colors: &[(RgbColor, u64)]) -> Histogram {
    let mut histogram = Histogram::new();
    for (color, count) in colors {
        for _ in 0..*count {
            histogram.push_color(color);
        }
    }
    histogram
}

fn entry(r: u32, g: u32, b: u32, weight: u64, cluster_number: u32) -> ClusterEntry {
    ClusterEntry::new(HistogramEntry::new(RgbColor::new(r, g, b), weight), cluster_number)
}

fn center(r: u128, g: u128, b: u128, weight: u64) -> ClusterCenter {
    ClusterCenter { sum: WeightedColor { r, g, b }, weight }
}

fn whole(value: u128) -> Distance {
    Distance::from_fraction(value, 1)
}

fn same(a: &Distance, b: &Distance) -> bool {
    !a.lt(b) && !b.lt(a)
}

fn cost(data: &[ClusterEntry], centers: &[ClusterCenter]) -> f64 {
    let mut sum = 0.0_f64;
    for e in data {
        let c = &centers[e.cluster_number as usize];
        let w = c.weight as f64;
        let dr = e.histogram_point.color.r as f64 - c.sum.r as f64 / w;
        let dg = e.histogram_point.color.g as f64 - c.sum.g as f64 / w;
        let db = e.histogram_point.color.b as f64 - c.sum.b as f64 / w;
        sum += e.histogram_point.weight as f64 * (dr * dr + dg * dg + db * db);
    }
    sum
}

#[test]
fn min_distance_index_success() {
    let values = vec![whole(1), whole(2), whole(3), whole(4)];
    let actual = min_distance_index(&values);
    assert_eq!(actual, 0);

    let values = vec![whole(2), whole(3), whole(4), whole(1)];
    let actual = min_distance_index(&values);
    assert_eq!(actual, 3);

    let values = vec![whole(2), whole(3), whole(1), whole(4)];
    let actual = min_distance_index(&values);
    assert_eq!(actual, 2);
}

#[test]
fn min_distance_index_takes_first_of_equal() {
    let values = vec![
        whole(5),
        Distance::from_fraction(6, 3),
        whole(2),
        Distance::from_fraction(4, 2),
    ];
    assert_eq!(min_distance_index(&values), 1);
    assert_eq!(min_distance_index(&[whole(7)].into_iter().collect::<Vec<Distance>>()), 0);
}

#[test]
fn squared_distance_exact_values() {
    let origin = RgbColor::new(0, 0, 0);
    let d = squared_distance(&origin, &center(3, 4, 0, 1));
    assert!(same(&d, &whole(25)));
    assert!(whole(24).lt(&d));
    assert!(d.lt(&whole(26)));

    // from (1, 1, 1) to (3, 3, 3): 4 + 4 + 4
    let d = squared_distance(&RgbColor::new(1, 1, 1), &center(3, 3, 3, 1));
    assert!(same(&d, &whole(12)));
    // the same in the other direction
    let d = squared_distance(&RgbColor::new(3, 3, 3), &center(1, 1, 1, 1));
    assert!(same(&d, &whole(12)));

    // center (1/2, 0, 0): distance from (1, 0, 0) is 1/4
    let d = squared_distance(&RgbColor::new(1, 0, 0), &center(1, 0, 0, 2));
    assert!(same(&d, &Distance::from_fraction(1, 4)));
    // center (10/3, 20/3, 5/3) from (0, 0, 0): (100 + 400 + 25) / 9
    let d = squared_distance(&origin, &center(10, 20, 5, 3));
    assert!(same(&d, &Distance::from_fraction(525, 9)));
    assert!(!same(&d, &Distance::from_fraction(526, 9)));
}

#[test]
fn squared_distance_with_the_largest_values() {
    let far = RgbColor::new(u32::MAX, u32::MAX, u32::MAX);
    let weight = u64::MAX;
    let zero = center(0, 0, 0, weight);
    let d = squared_distance(&far, &zero);
    let m = u32::MAX as u128;
    assert!(same(&d, &whole(3 * m * m)));
    let top = center(m * weight as u128, m * weight as u128, m * weight as u128, weight);
    assert!(same(&squared_distance(&far, &top), &whole(0)));
    let one_off = center(m * weight as u128 - 1, m * weight as u128, m * weight as u128, weight);
    // one step of 1 / weight along one channel
    let tiny = squared_distance(&far, &one_off);
    assert!(whole(0).lt(&tiny));
    assert!(same(&tiny, &Distance::from_fraction(1, weight as u128 * weight as u128)));
    assert!(Distance::from_fraction(1, u128::MAX).lt(&tiny));
}

#[test]
fn distance_order_across_denominators() {
    assert!(Distance::from_fraction(1, 3).lt(&Distance::from_fraction(1, 2)));
    assert!(!Distance::from_fraction(2, 4).lt(&Distance::from_fraction(1, 2)));
    assert!(Distance::from_fraction(u128::MAX - 1, u128::MAX).lt(&whole(1)));
    assert!(Distance::from_fraction(u128::MAX, 3).lt(&Distance::from_fraction(u128::MAX, 2)));
}

#[test]
fn nearest_center_is_first_of_the_closest() {
    let centers = vec![center(10, 0, 0, 1), center(0, 0, 0, 1), center(4, 0, 0, 2), center(0, 0, 0, 5)];
    assert_eq!(nearest_center_index(&RgbColor::new(0, 0, 0), &centers), 1);
    assert_eq!(nearest_center_index(&RgbColor::new(1, 0, 0), &centers), 1);
    assert_eq!(nearest_center_index(&RgbColor::new(2, 0, 0), &centers), 2);
    assert_eq!(nearest_center_index(&RgbColor::new(6, 0, 0), &centers), 0);
    assert_eq!(nearest_center_index(&RgbColor::new(7, 0, 0), &centers), 0);
}

#[test]
fn cluster_entry_holds_its_contribution() {
    let e = entry(1, 2, 3, 10, 7);
    assert_eq!(e.cluster_number, 7);
    assert_eq!(e.weighted_colors, WeightedColor { r: 10, g: 20, b: 30 });
    let e = entry(u32::MAX, 0, 1, u64::MAX, 0);
    assert_eq!(
        e.weighted_colors,
        WeightedColor { r: u32::MAX as u128 * u64::MAX as u128, g: 0, b: u64::MAX as u128 }
    );
}

#[test]
fn allocate_centers_gives_origins() {
    assert_eq!(allocate_centers(0), vec![]);
    assert_eq!(allocate_centers(3), vec![ClusterCenter::zero(); 3]);
    assert_eq!(ClusterCenter::zero(), center(0, 0, 0, 1));
    assert_eq!(ClusterCenter::zero().to_color(), RgbColor::new(0, 0, 0));
}

#[test]
fn center_color_rounds_down() {
    assert_eq!(center(10, 11, 12, 4).to_color(), RgbColor::new(2, 2, 3));
    assert_eq!(center(255, 0, 1, 1).to_color(), RgbColor::new(255, 0, 1));
}

#[test]
fn centers_are_weighted_means() {
    let data = vec![entry(0, 0, 0, 1, 0), entry(10, 20, 30, 3, 0), entry(5, 5, 5, 2, 1)];
    let centers = calc_cluster_centers(&data, 2).unwrap();
    assert_eq!(centers, vec![center(30, 60, 90, 4), center(10, 10, 10, 2)]);
}

#[test]
fn centers_fail_on_an_empty_cluster() {
    let data = vec![entry(0, 0, 0, 1, 0), entry(10, 20, 30, 3, 2)];
    assert_eq!(calc_cluster_centers(&data, 3), None);
    assert_eq!(calc_cluster_centers(&data, 4), None);
    assert_eq!(calc_cluster_centers(&Vec::new(), 1), None);
    assert_eq!(calc_cluster_centers(&Vec::new(), 0), Some(vec![]));
    // a cluster whose members weigh nothing is empty
    let data = vec![entry(1, 1, 1, 0, 0)];
    assert_eq!(calc_cluster_centers(&data, 1), None);
}

#[test]
fn reassignment_moves_to_the_nearest() {
    let centers = vec![center(0, 0, 0, 1), center(100, 100, 100, 1)];
    let data = vec![entry(1, 1, 1, 1, 1), entry(99, 99, 99, 1, 0), entry(50, 50, 50, 1, 1)];
    // the entry in the middle is as far from both: the first center wins
    assert_eq!(calc_data_clusters(&data, &centers), Some(vec![0, 1, 0]));
}

#[test]
fn reassignment_gives_nothing_when_nothing_moves() {
    let centers = vec![center(0, 0, 0, 1), center(100, 100, 100, 1)];
    let data = vec![entry(1, 1, 1, 1, 0), entry(99, 99, 99, 1, 1)];
    assert_eq!(calc_data_clusters(&data, &centers), None);
    assert_eq!(calc_data_clusters(&Vec::new(), &centers), None);
    assert_eq!(calc_data_clusters(&Vec::new(), &Vec::new()), None);
}

#[test]
fn reassignment_gives_nothing_when_a_cluster_is_lost() {
    let centers = vec![center(0, 0, 0, 1), center(100, 100, 100, 1)];
    let data = vec![entry(1, 1, 1, 1, 1), entry(2, 2, 2, 1, 0)];
    assert_eq!(calc_data_clusters(&data, &centers), None);
}

#[test]
fn two_far_colors_two_clusters() {
    let black = RgbColor::new(0, 0, 0);
    let white = RgbColor::new(255, 255, 255);
    let histogram = histogram_of(&[(black, 100), (white, 100)]);
    let palette = cluster(&histogram, 2, 10);
    assert_eq!(
        palette,
        vec![ColorPoint::new(black, 1, 2), ColorPoint::new(white, 1, 2)]
    );
}

#[test]
fn fewer_colors_than_clusters() {
    let histogram = histogram_of(&[(RgbColor::new(10, 10, 10), 1)]);
    let palette = cluster(&histogram, 3, 5);
    let origin = RgbColor::new(0, 0, 0);
    assert_eq!(
        palette,
        vec![
            ColorPoint::new(origin, 1, 1),
            ColorPoint::new(origin, 0, 1),
            ColorPoint::new(origin, 0, 1)
        ]
    );
}

#[test]
fn one_cluster_is_weighted_mean() {
    let histogram = histogram_of(&[(RgbColor::new(0, 0, 0), 1), (RgbColor::new(10, 20, 30), 3)]);
    let palette = cluster(&histogram, 1, 30);
    assert_eq!(palette, vec![ColorPoint::new(RgbColor::new(7, 15, 22), 2, 2)]);
    let palette = cluster(&histogram, 1, 1);
    assert_eq!(palette, vec![ColorPoint::new(RgbColor::new(7, 15, 22), 2, 2)]);
}

#[test]
fn no_rounds_keeps_first_assignment() {
    let data = vec![entry(1, 2, 3, 4, 0), entry(5, 6, 7, 1, 1), entry(9, 9, 9, 2, 1)];
    let palette = cluster_from(data, 2, 0);
    let origin = RgbColor::new(0, 0, 0);
    assert_eq!(palette, vec![ColorPoint::new(origin, 1, 3), ColorPoint::new(origin, 2, 3)]);

    let histogram = histogram_of(&[(RgbColor::new(1, 1, 1), 2), (RgbColor::new(200, 0, 0), 1)]);
    let palette = cluster(&histogram, 2, 0);
    assert_eq!(palette, vec![ColorPoint::new(origin, 1, 2), ColorPoint::new(origin, 1, 2)]);
}

#[test]
fn no_clusters_or_no_colors_give_no_palette() {
    let histogram = histogram_of(&[(RgbColor::new(1, 1, 1), 2)]);
    assert_eq!(cluster(&histogram, 0, 10), vec![]);
    assert_eq!(cluster(&Histogram::new(), 3, 10), vec![]);
    assert_eq!(cluster(&Histogram::new(), 0, 0), vec![]);
    assert_eq!(cluster_from(Vec::new(), 5, 10), vec![]);
    assert_eq!(init_cluster_data(&histogram, 0), vec![]);
    assert_eq!(init_cluster_data(&Histogram::new(), 4), vec![]);
}

#[test]
fn palette_has_one_entry_for_each_cluster() {
    let mut colors = Vec::new();
    for i in 0..40u32 {
        colors.push((RgbColor::new(i * 6, 255 - i * 3, (i * 37) % 256), (i % 5 + 1) as u64));
    }
    let histogram = histogram_of(&colors);
    for k in 1..=40u32 {
        let palette = cluster(&histogram, k, 30);
        assert_eq!(palette.len(), k as usize);
        let members: usize = palette.iter().map(|p| p.members).sum();
        assert_eq!(members, 40);
        assert!(palette.iter().all(|p| p.total == 40));
        let weights: f64 = palette.iter().map(|p| p.members as f64 / p.total as f64).sum();
        assert!((weights - 1.0).abs() < 1e-9);
    }
}

#[test]
fn first_assignment_seeds_every_cluster() {
    let mut colors = Vec::new();
    for i in 0..50u32 {
        colors.push((RgbColor::new(i, i, i), 1u64));
    }
    let histogram = histogram_of(&colors);
    for _ in 0..20 {
        let data = init_cluster_data(&histogram, 7);
        assert_eq!(data.len(), 50);
        for (i, e) in data.iter().enumerate() {
            assert_eq!(e.histogram_point, HistogramEntry::new(RgbColor::new(i as u32, i as u32, i as u32), 1));
            assert_eq!(e.weighted_colors, WeightedColor { r: i as u128, g: i as u128, b: i as u128 });
            assert!(e.cluster_number < 7);
            if i < 7 {
                assert_eq!(e.cluster_number, i as u32);
            }
        }
    }
    let data = init_cluster_data(&histogram, 1);
    assert!(data.iter().all(|e| e.cluster_number == 0));
}

#[test]
fn same_first_assignment_same_palette() {
    let mut data = Vec::new();
    for i in 0..60u32 {
        data.push(entry((i * 17) % 256, (i * 29) % 256, (i * 5) % 256, (i % 7 + 1) as u64, i % 4));
    }
    let first = cluster_from(data.clone(), 4, 30);
    let second = cluster_from(data.clone(), 4, 30);
    assert_eq!(first, second);
    assert_eq!(first.len(), 4);
}

#[test]
fn three_groups_are_found() {
    // three tight groups; the first assignment has one stray in each
    let mut data = Vec::new();
    for i in 0..5u32 {
        let stray = if i == 4 { 1 } else { 0 };
        data.push(entry(10 + i, 10, 10, 2, stray));
        data.push(entry(200, 100 + i, 50, 1, 1 + stray));
        data.push(entry(0, 250 - i, 250, 3, (2 + stray) % 3));
    }
    let palette = cluster_from(data.clone(), 3, 30);
    // two rounds are enough, one is not
    assert_eq!(cluster_from(data.clone(), 3, 2), palette);
    assert_ne!(cluster_from(data, 3, 1), palette);
    assert_eq!(
        palette,
        vec![
            ColorPoint::new(RgbColor::new(12, 10, 10), 5, 15),
            ColorPoint::new(RgbColor::new(200, 102, 50), 5, 15),
            ColorPoint::new(RgbColor::new(0, 248, 250), 5, 15)
        ]
    );
}

#[test]
fn cost_does_not_rise_from_round_to_round() {
    let mut data = Vec::new();
    for i in 0..80u32 {
        data.push(entry(
            (i * 37) % 256,
            (i * 101) % 256,
            (i * 11) % 256,
            ((i * 13) % 9 + 1) as u64,
            i % 5,
        ));
    }
    let mut last: Option<f64> = None;
    for _ in 0..30 {
        let centers = match calc_cluster_centers(&data, 5) {
            Some(centers) => centers,
            None => break,
        };
        let now = cost(&data, &centers);
        if let Some(before) = last {
            assert!(now <= before * (1.0 + 1e-12));
        }
        last = Some(now);
        let labels = match calc_data_clusters(&data, &centers) {
            Some(labels) => labels,
            None => break,
        };
        let moved: Vec<ClusterEntry> = data
            .iter()
            .zip(labels.iter())
            .map(|(e, l)| ClusterEntry::new(e.histogram_point, *l))
            .collect();
        assert!(cost(&moved, &centers) <= now * (1.0 + 1e-12));
        data = moved;
    }
    assert!(last.is_some());
}

fn cost_by_entry(data: &[ClusterEntry], centers: &[ClusterCenter]) -> f64 {
    let once: Vec<ClusterEntry> = data
        .iter()
        .map(|e| ClusterEntry::new(HistogramEntry::new(e.histogram_point.color, 1), e.cluster_number))
        .collect();
    cost(&once, centers)
}

#[test]
fn cost_counts_every_pixel() {
    // five light colors in one cluster; a heavy color that lies a little
    // nearer to them than to the center of its own cluster
    let data = vec![
        entry(0, 0, 0, 1, 0),
        entry(10, 0, 0, 1, 0),
        entry(20, 0, 0, 1, 0),
        entry(30, 0, 0, 1, 0),
        entry(40, 0, 0, 1, 0),
        entry(60, 0, 0, 1000, 1),
        entry(101, 0, 0, 1_000_000, 1),
    ];
    let centers = calc_cluster_centers(&data, 2).unwrap();
    assert_eq!(centers, vec![center(100, 0, 0, 5), center(101_060_000, 0, 0, 1_001_000)]);
    let labels = calc_data_clusters(&data, &centers).unwrap();
    assert_eq!(labels, vec![0, 0, 0, 0, 0, 0, 1]);
    let moved: Vec<ClusterEntry> = data
        .iter()
        .zip(labels.iter())
        .map(|(e, l)| ClusterEntry::new(e.histogram_point, *l))
        .collect();
    let next = calc_cluster_centers(&moved, 2).unwrap();
    assert_eq!(next, vec![center(60_100, 0, 0, 1005), center(101_000_000, 0, 0, 1_000_000)]);
    // counted by the pixel the cost falls
    assert!(cost(&moved, &centers) <= cost(&data, &centers));
    assert!(cost(&moved, &next) <= cost(&moved, &centers));
    // counted by the entry it does not: the heavy color drags the center
    // away from the light ones
    assert!(cost_by_entry(&moved, &next) > cost_by_entry(&data, &centers));
}

#[test]
fn drawn_numbers_place_the_entries_behind_the_seeds() {
    let mut colors = Vec::new();
    for i in 0..8u32 {
        colors.push((RgbColor::new(i, 2 * i, 3 * i), (i + 1) as u64));
    }
    let histogram = histogram_of(&colors);
    let data = seed_cluster_data(&histogram, 3, &vec![2, 7, 0, 3]);
    let labels: Vec<u32> = data.iter().map(|e| e.cluster_number).collect();
    // three seeds, then 2, 7 % 3, 0, 3 % 3, and 0 where no number is left
    assert_eq!(labels, vec![0, 1, 2, 2, 1, 0, 0, 0]);
    for (i, e) in data.iter().enumerate() {
        let i = i as u32;
        assert_eq!(e.histogram_point, HistogramEntry::new(RgbColor::new(i, 2 * i, 3 * i), (i + 1) as u64));
        let w = (i + 1) as u128;
        assert_eq!(
            e.weighted_colors,
            WeightedColor { r: i as u128 * w, g: 2 * i as u128 * w, b: 3 * i as u128 * w }
        );
    }
    assert_eq!(seed_cluster_data(&histogram, 0, &vec![1, 2]), vec![]);
    assert_eq!(seed_cluster_data(&Histogram::new(), 3, &vec![1, 2]), vec![]);
    let all = seed_cluster_data(&histogram, 20, &Vec::new());
    let labels: Vec<u32> = all.iter().map(|e| e.cluster_number).collect();
    assert_eq!(labels, vec![0, 1, 2, 3, 4, 5, 6, 7]);
}

#[test]
fn same_numbers_same_palette() {
    let mut colors = Vec::new();
    for i in 0..90u32 {
        colors.push((RgbColor::new((i * 53) % 256, (i * 7) % 256, (i * 91) % 256), (i % 4 + 1) as u64));
    }
    let histogram = histogram_of(&colors);
    let drawn: Vec<u32> = (0..90u32).map(|i| i.wrapping_mul(2654435761) >> 7).collect();
    let first = cluster_with(&histogram, 5, 30, &drawn);
    let second = cluster_with(&histogram, 5, 30, &drawn);
    assert_eq!(first, second);
    assert_eq!(first.len(), 5);
    let data = seed_cluster_data(&histogram, 5, &drawn);
    assert_eq!(cluster_from(data, 5, 30), first);
    assert_eq!(cluster_with(&histogram, 0, 30, &drawn), vec![]);
}

fn plain_clustering(
    points: &[(RgbColor, u64)],
    first: &[u32],
    k: usize,
    rounds: u32,
) -> Vec<(RgbColor, usize)> {
    let mut labels: Vec<usize> = first.iter().map(|l| *l as usize).collect();
    let mut centers = vec![[0.0_f64; 3]; k];
    for _ in 0..rounds {
        let mut sums = vec![[0.0_f64; 3]; k];
        let mut weights = vec![0.0_f64; k];
        for ((color, weight), label) in points.iter().zip(labels.iter()) {
            let w = *weight as f64;
            sums[*label][0] += color.r as f64 * w;
            sums[*label][1] += color.g as f64 * w;
            sums[*label][2] += color.b as f64 * w;
            weights[*label] += w;
        }
        if weights.iter().any(|w| *w == 0.0) {
            break;
        }
        for c in 0..k {
            for ch in 0..3 {
                centers[c][ch] = sums[c][ch] / weights[c];
            }
        }
        let mut next = Vec::new();
        for (color, _) in points {
            let mut best = 0;
            let mut best_distance = f64::INFINITY;
            for c in 0..k {
                let dr = color.r as f64 - centers[c][0];
                let dg = color.g as f64 - centers[c][1];
                let db = color.b as f64 - centers[c][2];
                let d = dr * dr + dg * dg + db * db;
                if d < best_distance {
                    best_distance = d;
                    best = c;
                }
            }
            next.push(best);
        }
        if next == labels {
            break;
        }
        if (0..k).any(|c| !next.contains(&c)) {
            break;
        }
        labels = next;
    }
    (0..k)
        .map(|c| {
            let color = RgbColor::new(
                centers[c][0] as u32,
                centers[c][1] as u32,
                centers[c][2] as u32,
            );
            (color, labels.iter().filter(|l| **l == c).count())
        })
        .collect()
}

#[test]
fn agrees_with_a_plain_implementation() {
    let mut x: u64 = 0x2545_f491_4f6c_dd1d;
    let mut next = move || {
        x ^= x << 13;
        x ^= x >> 7;
        x ^= x << 17;
        x
    };
    for round in 0..40u32 {
        let n = 20 + (next() % 60) as usize;
        let k = 1 + (next() % 6) as usize;
        let mut points = Vec::new();
        let mut first = Vec::new();
        for i in 0..n {
            // odd channel values and odd weights keep the distances to
            // different centers apart
            let color = RgbColor::new(
                (next() % 128) as u32 * 2 + 1,
                (next() % 128) as u32 * 2 + 1,
                (next() % 128) as u32 * 2 + 1,
            );
            points.push((color, (next() % 50) * 2 + 1));
            first.push(if i < k { i as u32 } else { (next() % k as u64) as u32 });
        }
        let data: Vec<ClusterEntry> = points
            .iter()
            .zip(first.iter())
            .map(|((color, weight), label)| ClusterEntry::new(HistogramEntry::new(*color, *weight), *label))
            .collect();
        let rounds = round % 7;
        let palette = cluster_from(data, k as u32, rounds);
        let expected: Vec<ColorPoint> = plain_clustering(&points, &first, k, rounds)
            .into_iter()
            .map(|(color, members)| ColorPoint::new(color, members, n))
            .collect();
        assert_eq!(palette, expected, "round {}", round);
    }
}

#[test]
fn largest_values_cluster() {
    let top = u32::MAX;
    let heavy = 1u64 << 61;
    let data = vec![
        entry(top, 0, 0, heavy, 0),
        entry(0, top, 0, heavy, 1),
        entry(top, 1, 1, heavy, 1),
        entry(1, top, 1, heavy, 0),
        entry(top - 1, 0, 0, heavy, 0),
        entry(0, top - 1, 0, heavy, 1),
    ];
    let palette = cluster_from(data, 2, 30);
    assert_eq!(
        palette,
        vec![
            ColorPoint::new(RgbColor::new(top - 1, 0, 0), 3, 6),
            ColorPoint::new(RgbColor::new(0, top - 1, 0), 3, 6)
        ]
    );
}
