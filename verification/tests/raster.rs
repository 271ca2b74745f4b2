use image_base_colors::img_utils::raster::Raster;
use image_base_colors::img_utils::rgb_color::RgbColor;

#[test]
fn raster_from_raw_checks_the_length() {
    assert!(Raster::from_raw(2, 2, vec![0; 12]).is_some());
    assert!(Raster::from_raw(2, 2, vec![0; 11]).is_none());
    assert!(Raster::from_raw(2, 2, vec![0; 13]).is_none());
    assert!(Raster::from_raw(0, 0, vec![]).is_some());
    assert!(Raster::from_raw(0, 7, vec![]).is_some());
    assert!(Raster::from_raw(0, 7, vec![1, 2, 3]).is_none());
    assert!(Raster::from_raw(u32::MAX, u32::MAX, vec![0; 3]).is_none());
}

#[test]
fn raster_reads_pixels_row_by_row() {
    let data: Vec<u8> = (0..18).collect();
    let picture = Raster::from_raw(3, 2, data.clone()).unwrap();
    assert_eq!(picture.dimensions(), (3, 2));
    assert_eq!(picture.width(), 3);
    assert_eq!(picture.height(), 2);
    assert_eq!(picture.pixel_count(), 6);
    assert_eq!(picture.get_pixel(0, 0), RgbColor::new(0, 1, 2));
    assert_eq!(picture.get_pixel(2, 0), RgbColor::new(6, 7, 8));
    assert_eq!(picture.get_pixel(0, 1), RgbColor::new(9, 10, 11));
    assert_eq!(picture.get_pixel(2, 1), RgbColor::new(15, 16, 17));
    assert_eq!(picture.nth_pixel(4), RgbColor::new(12, 13, 14));
    assert_eq!(picture.as_raw(), &data);
    assert_eq!(picture.into_raw(), data);
}

#[test]
fn raster_new_is_black_and_put_pixel_changes_one_pixel() {
    assert!(Raster::fits(4, 3));
    assert!(Raster::fits(0, u32::MAX));
    let mut picture = Raster::new(4, 3);
    assert_eq!(picture.as_raw(), &vec![0u8; 36]);
    picture.put_pixel(1, 2, RgbColor::new(10, 20, 30));
    picture.put_pixel(3, 0, RgbColor::new(256 + 7, 255, 1024));
    for y in 0..3 {
        for x in 0..4 {
            let expected = if (x, y) == (1, 2) {
                RgbColor::new(10, 20, 30)
            } else if (x, y) == (3, 0) {
                RgbColor::new(7, 255, 0)
            } else {
                RgbColor::new(0, 0, 0)
            };
            assert_eq!(picture.get_pixel(x, y), expected);
        }
    }
}
