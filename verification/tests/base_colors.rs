use image_base_colors::img_utils::base_colors::{
    base_colors_info_of, draw, get_base_colors_info, get_png_image_with_base_colors,
    kmeans_calculate, open_image_from_bytes, png_image_with_base_colors_of, png_of,
    raster_from_decoded, InvalidImage,
};
use image_base_colors::img_utils::color_point::ColorPoint;
use image_base_colors::img_utils::raster::Raster;
use image_base_colors::img_utils::rgb_color::RgbColor;
use image_base_colors::img_utils::weight_order::sort_by_weight;
use std::io::Cursor;

fn point(tag: u32, members: usize, total: usize) -> ColorPoint {
    ColorPoint::new(RgbColor::new(tag, tag, tag), members, total)
}

fn png_file(width: u32, height: u32, data: Vec<u8>) -> Vec<u8> {
    let img = image::RgbImage::from_raw(width, height, data).unwrap();
    let mut buff = Cursor::new(Vec::new());
    img.write_to(&mut buff, image::ImageOutputFormat::Png).unwrap();
    buff.into_inner()
}

fn two_color_data() -> Vec<u8> {
    // 5 x 2: seven pixels (10, 20, 30) and three pixels (200, 100, 0)
    let mut data = Vec::new();
    for i in 0..10 {
        if i % 3 == 1 {
            data.extend_from_slice(&[200, 100, 0]);
        } else {
            data.extend_from_slice(&[10, 20, 30]);
        }
    }
    data
}

#[test]
fn sort_is_stable_in_both_directions() {
    let points = vec![point(1, 1, 4), point(2, 2, 4), point(3, 1, 4), point(4, 0, 4), point(5, 2, 4)];
    assert_eq!(
        sort_by_weight(&points, true),
        vec![point(2, 2, 4), point(5, 2, 4), point(1, 1, 4), point(3, 1, 4), point(4, 0, 4)]
    );
    assert_eq!(
        sort_by_weight(&points, false),
        vec![point(4, 0, 4), point(1, 1, 4), point(3, 1, 4), point(2, 2, 4), point(5, 2, 4)]
    );
    assert_eq!(sort_by_weight(&Vec::new(), true), vec![]);
    // weights, not member counts, decide
    let points = vec![point(1, 2, 10), point(2, 1, 2), point(3, 1, 5)];
    assert_eq!(sort_by_weight(&points, true), vec![point(2, 1, 2), point(1, 2, 10), point(3, 1, 5)]);
}

#[test]
fn dominant_colors_come_heaviest_first() {
    // two colors close together, one far off: with two clusters the pair
    // makes the heavier one
    let mut data = Vec::new();
    for _ in 0..3 {
        data.extend_from_slice(&[250, 250, 250]);
    }
    data.extend_from_slice(&[10, 10, 10]);
    data.extend_from_slice(&[12, 10, 10]);
    data.extend_from_slice(&[12, 10, 10]);
    let picture = Raster::from_raw(6, 1, data).unwrap();
    let palette = kmeans_calculate(&picture, 2, 30);
    assert_eq!(
        palette,
        vec![
            ColorPoint::new(RgbColor::new(11, 10, 10), 2, 3),
            ColorPoint::new(RgbColor::new(250, 250, 250), 1, 3)
        ]
    );
    assert_eq!(kmeans_calculate(&picture, 0, 30), vec![]);
    let none = Raster::from_raw(0, 0, Vec::new()).unwrap();
    assert_eq!(kmeans_calculate(&none, 2, 30), vec![]);
}

#[test]
fn drawing_puts_bands_beside_the_picture() {
    let data: Vec<u8> = (0..150).map(|i| (i + 1) as u8).collect();
    let source = Raster::from_raw(5, 10, data).unwrap();
    let red = RgbColor::new(255, 0, 0);
    let blue = RgbColor::new(0, 0, 255);
    let colors = vec![ColorPoint::new(red, 2, 3), ColorPoint::new(blue, 1, 3)];
    let picture = draw(&source, &colors);
    assert_eq!(picture.dimensions(), (6, 10));
    for y in 0..10 {
        for x in 0..5 {
            assert_eq!(picture.get_pixel(x, y), source.get_pixel(x, y));
        }
        // the lighter color comes first: ceil(10 / 3) = 4 rows, and the
        // other takes what is left of its ceil(20 / 3) = 7 rows
        let expected = if y < 4 { blue } else { red };
        assert_eq!(picture.get_pixel(5, y), expected);
    }
}

#[test]
fn drawing_leaves_black_below_the_bands() {
    let source = Raster::from_raw(10, 4, vec![9; 120]).unwrap();
    let green = RgbColor::new(0, 300, 0);
    let colors = vec![ColorPoint::new(green, 1, 4)];
    let picture = draw(&source, &colors);
    assert_eq!(picture.dimensions(), (12, 4));
    for y in 0..4 {
        for x in 10..12 {
            let expected = if y < 1 { RgbColor::new(0, 44, 0) } else { RgbColor::new(0, 0, 0) };
            assert_eq!(picture.get_pixel(x, y), expected);
        }
        assert_eq!(picture.get_pixel(9, y), RgbColor::new(9, 9, 9));
    }
    let picture = draw(&source, &Vec::new());
    assert_eq!(picture.get_pixel(11, 0), RgbColor::new(0, 0, 0));
    // a narrow picture gets no strip
    let narrow = Raster::from_raw(4, 1, vec![7; 12]).unwrap();
    assert_eq!(draw(&narrow, &colors).dimensions(), (4, 1));
}

#[test]
fn picture_is_read_from_the_bytes_of_a_file() {
    let data = two_color_data();
    let file = png_file(5, 2, data.clone());
    assert_ne!(file, data);
    let picture = open_image_from_bytes(&file).unwrap();
    assert_eq!(picture.dimensions(), (5, 2));
    assert_eq!(picture.as_raw(), &data);
    assert_eq!(picture.get_pixel(1, 0), RgbColor::new(200, 100, 0));
}

#[test]
fn bytes_that_are_no_picture_give_a_reason() {
    let failure = open_image_from_bytes(b"this is no picture").unwrap_err();
    assert!(!failure.message.is_empty());
    let err = image::load_from_memory(b"this is no picture").unwrap_err();
    assert_eq!(failure.message, err.to_string());
    assert!(open_image_from_bytes(&[]).is_err());
    assert!(get_base_colors_info(b"this is no picture", 4, 30).is_err());
    assert!(get_png_image_with_base_colors(b"this is no picture", 4, 30).is_err());
}

#[test]
fn decoded_pixels_must_fill_the_picture() {
    let picture = raster_from_decoded(Ok((2, 1, vec![1, 2, 3, 4, 5, 6]))).unwrap();
    assert_eq!(picture.dimensions(), (2, 1));
    assert_eq!(picture.as_raw(), &vec![1, 2, 3, 4, 5, 6]);
    assert!(raster_from_decoded(Ok((2, 1, vec![1, 2, 3]))).is_err());
    let err = image::load_from_memory(&[]).unwrap_err();
    let text = err.to_string();
    assert_eq!(raster_from_decoded(Err(err)).unwrap_err().message, text);
}

#[test]
fn base_colors_of_a_file() {
    let file = png_file(5, 2, two_color_data());
    let palette = get_base_colors_info(&file, 2, 30).unwrap();
    assert_eq!(
        palette,
        vec![
            ColorPoint::new(RgbColor::new(10, 20, 30), 1, 2),
            ColorPoint::new(RgbColor::new(200, 100, 0), 1, 2)
        ]
    );
    assert_eq!(get_base_colors_info(&file, 0, 30).unwrap(), vec![]);
}

#[test]
fn png_of_a_picture_decodes_to_the_picture() {
    let data = two_color_data();
    let picture = Raster::from_raw(5, 2, data.clone()).unwrap();
    let file = png_of(&picture).unwrap();
    assert_ne!(file, data);
    assert_eq!(&file[1..4], b"PNG");
    let decoded = image::load_from_memory(&file).unwrap().to_rgb8();
    assert_eq!(decoded.dimensions(), (5, 2));
    assert_eq!(decoded.into_raw(), data);
    // a picture without pixels has no file
    assert!(png_of(&Raster::from_raw(0, 0, Vec::new()).unwrap()).is_err());
}

#[test]
fn drawing_of_a_file() {
    let data = two_color_data();
    let file = png_file(5, 2, data.clone());
    let drawn = get_png_image_with_base_colors(&file, 2, 30).unwrap();
    let decoded = image::load_from_memory(&drawn).unwrap().to_rgb8();
    assert_eq!(decoded.dimensions(), (6, 2));
    for y in 0..2u32 {
        for x in 0..5u32 {
            let at = 3 * (y * 5 + x) as usize;
            assert_eq!(decoded.get_pixel(x, y).0, [data[at], data[at + 1], data[at + 2]]);
        }
    }
    // two colors of weight 1/2, in the order of the palette
    assert_eq!(decoded.get_pixel(5, 0).0, [10, 20, 30]);
    assert_eq!(decoded.get_pixel(5, 1).0, [200, 100, 0]);
}

#[test]
fn a_picture_that_was_not_read_keeps_its_reason() {
    let reason = || InvalidImage { message: "no picture".to_string() };
    assert_eq!(base_colors_info_of(Err(reason()), 2, 30), Err(reason()));
    assert_eq!(png_image_with_base_colors_of(Err(reason()), 2, 30), Err(reason()));
}

#[test]
fn a_picture_that_was_read_gives_its_colors_and_its_drawing() {
    let data = two_color_data();
    let read = || Ok(Raster::from_raw(5, 2, two_color_data()).unwrap());
    assert_eq!(
        base_colors_info_of(read(), 2, 30),
        Ok(vec![
            ColorPoint::new(RgbColor::new(10, 20, 30), 1, 2),
            ColorPoint::new(RgbColor::new(200, 100, 0), 1, 2)
        ])
    );
    let file = png_image_with_base_colors_of(read(), 2, 30).unwrap();
    let decoded = image::load_from_memory(&file).unwrap().to_rgb8();
    assert_eq!(decoded.dimensions(), (6, 2));
    assert_eq!(decoded.get_pixel(0, 0).0, [data[0], data[1], data[2]]);
    assert_eq!(decoded.get_pixel(5, 0).0, [10, 20, 30]);
    assert_eq!(decoded.get_pixel(5, 1).0, [200, 100, 0]);
    // a picture without pixels has no file
    let none = Ok(Raster::from_raw(0, 0, Vec::new()).unwrap());
    assert!(png_image_with_base_colors_of(none, 2, 30).is_err());
}
