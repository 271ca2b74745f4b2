use image_base_colors::img_utils::color_point::ColorPoint;
use image_base_colors::img_utils::histogram::{from_image, Histogram, HistogramEntry};
use image_base_colors::img_utils::raster::Raster;
use image_base_colors::img_utils::rgb_color::RgbColor;

#[test]
fn color_from_vec_needs_three_values() {
    assert_eq!(RgbColor::from_vec(&vec![1, 2, 3]), Some(RgbColor::new(1, 2, 3)));
    assert_eq!(RgbColor::from_vec(&vec![1, 2]), None);
    assert_eq!(RgbColor::from_vec(&vec![1, 2, 3, 4]), None);
    assert_eq!(RgbColor::from_vec(&vec![]), None);
    assert_eq!(RgbColor::dim(), 3);
    assert_eq!(ColorPoint::color_dim(), 3);
    assert_eq!(RgbColor::new(7, 8, 9).to_vec(), vec![7, 8, 9]);
    let c = RgbColor::new(4, 5, 6);
    assert_eq!((c.r, c.g, c.b), (4, 5, 6));
}

#[test]
fn color_key_holds_all_channels() {
    assert_eq!(RgbColor::new(0, 0, 0).hash_key(), 0);
    assert_eq!(RgbColor::new(0, 0, 1).hash_key(), 1);
    assert_eq!(RgbColor::new(0, 1, 0).hash_key(), 1 << 32);
    assert_eq!(RgbColor::new(1, 0, 0).hash_key(), 1 << 64);
    assert_eq!(
        RgbColor::new(u32::MAX, u32::MAX, u32::MAX).hash_key(),
        (1u128 << 96) - 1
    );
    assert_eq!(RgbColor::new(1, 2, 3).hash_key(), (1u128 << 64) + (2u128 << 32) + 3);
    assert_ne!(RgbColor::new(1, 2, 3).hash_key(), RgbColor::new(3, 2, 1).hash_key());
}

#[test]
fn color_point_weight_order() {
    let c = RgbColor::new(0, 0, 0);
    assert!(ColorPoint::new(c, 1, 3).lighter_than(&ColorPoint::new(c, 1, 2)));
    assert!(!ColorPoint::new(c, 2, 4).lighter_than(&ColorPoint::new(c, 1, 2)));
    assert!(!ColorPoint::new(c, 3, 4).lighter_than(&ColorPoint::new(c, 1, 2)));
    assert!(ColorPoint::new(c, 0, 1).lighter_than(&ColorPoint::new(c, 1, usize::MAX)));
    assert!(ColorPoint::new(c, usize::MAX - 1, usize::MAX)
        .lighter_than(&ColorPoint::new(c, usize::MAX, usize::MAX)));
}

#[test]
fn histogram_counts_in_order_of_first_sight() {
    let red = RgbColor::new(255, 0, 0);
    let green = RgbColor::new(0, 255, 0);
    let blue = RgbColor::new(0, 0, 255);
    let mut histogram = Histogram::new();
    assert_eq!(histogram.to_vec(), vec![]);
    assert_eq!(histogram.total(), 0);
    for color in [green, red, green, green, blue, red] {
        histogram.push_color(&color);
    }
    assert_eq!(
        histogram.to_vec(),
        vec![
            HistogramEntry::new(green, 3),
            HistogramEntry::new(red, 2),
            HistogramEntry::new(blue, 1)
        ]
    );
    assert_eq!(histogram.total(), 6);
    assert_eq!(Histogram::default().to_vec(), vec![]);
}

#[test]
fn histogram_keeps_colors_apart_that_differ_in_one_channel() {
    let mut histogram = Histogram::new();
    let colors = [
        RgbColor::new(1, 0, 0),
        RgbColor::new(0, 1, 0),
        RgbColor::new(0, 0, 1),
        RgbColor::new(0, 0, 1 << 31),
        RgbColor::new(u32::MAX, 0, 0),
        RgbColor::new(0, u32::MAX, 0),
    ];
    for color in colors {
        histogram.push_color(&color);
        histogram.push_color(&color);
    }
    let entries = histogram.to_vec();
    assert_eq!(entries.len(), 6);
    for (entry, color) in entries.iter().zip(colors.iter()) {
        assert_eq!(*entry, HistogramEntry::new(*color, 2));
    }
}

#[test]
fn histogram_of_a_picture() {
    let data = vec![9, 9, 9, 1, 2, 3, 9, 9, 9, 1, 2, 3, 1, 2, 3, 0, 0, 0];
    let picture = Raster::from_raw(3, 2, data).unwrap();
    let histogram = from_image(&picture);
    assert_eq!(
        histogram.to_vec(),
        vec![
            HistogramEntry::new(RgbColor::new(9, 9, 9), 2),
            HistogramEntry::new(RgbColor::new(1, 2, 3), 3),
            HistogramEntry::new(RgbColor::new(0, 0, 0), 1)
        ]
    );
    assert_eq!(histogram.total(), 6);
    let none = Raster::from_raw(0, 5, Vec::new()).unwrap();
    assert_eq!(from_image(&none).to_vec(), vec![]);
}
