//! From a picture to its dominant colors, and to the drawing of them.

use crate::img_utils::codec::{decode_rgb8, encode_png, error_text, png_encoded};
use crate::img_utils::color_point::ColorPoint;
use crate::img_utils::histogram::{from_image, histogram_of, lemma_histogram_empty};
use crate::img_utils::raster::{low_bits, raster_len, Raster};
use crate::img_utils::rgb_color::RgbColor;
use crate::img_utils::weight_order::{
    lemma_sorted_is_ordered, lemma_sorted_same_points, lemma_sorted_total_members,
    ordered_by_weight, sort_by_weight, sorted_by_weight,
};
use crate::kmeans::histogram_k_means::cluster;
use crate::kmeans::model::{
    iterate, seeded, spec_palette, total_members, zero_centers, ClusterEntry,
};
use vstd::prelude::*;

verus! {

/// Why the bytes of a file gave no picture.
#[derive(Debug, PartialEq, Eq)]
pub struct InvalidImage {
    pub message: String,
}

/// The grid that decoding gave, where it gave one and its bytes are three
/// to the pixel; else the reason why there is none.
pub fn raster_from_decoded(decoded: Result<(u32, u32, Vec<u8>), image::ImageError>) -> (img: Result<
    Raster,
    InvalidImage,
>)
    ensures
        match decoded {
            Ok((width, height, pixels)) => if pixels.len() == raster_len(
                width as nat,
                height as nat,
            ) {
                img matches Ok(raster) && raster.wf() && raster.spec_width() == width
                    && raster.spec_height() == height && raster.bytes() == pixels@
            } else {
                img is Err
            },
            Err(_) => img is Err,
        },
{
    match decoded {
        Ok((width, height, pixels)) => match Raster::from_raw(width, height, pixels) {
            Some(raster) => Ok(raster),
            None => Err(
                InvalidImage { message: "the pixels do not fill the picture".to_owned() },
            ),
        },
        Err(err) => Err(InvalidImage { message: error_text(&err) }),
    }
}

/// The picture that the bytes of an image file hold, where the decoder
/// finds one in them.
pub fn open_image_from_bytes(data: &[u8]) -> (img: Result<Raster, InvalidImage>)
    ensures
        img matches Ok(raster) ==> raster.wf(),
{
    raster_from_decoded(decode_rgb8(data))
}

/// `centers` is a palette of the dominant colors of `source`, the heaviest
/// first: what clustering the histogram of its pixels gives from some first
/// assignment, in the order of the weights. Without pixels or clusters it is
/// empty.
pub open spec fn is_palette_of(
    centers: Seq<ColorPoint>,
    source: Raster,
    number_of_clusters: u32,
    max_try_count: u32,
) -> bool {
    if source.pixels().len() == 0 || number_of_clusters == 0 {
        centers.len() == 0
    } else {
        exists|initial: Seq<ClusterEntry>|
            #[trigger] seeded(initial, histogram_of(source.pixels()), number_of_clusters as nat)
                && centers == sorted_by_weight(
                spec_palette(
                    iterate(initial, zero_centers(number_of_clusters as nat), max_try_count as nat),
                ),
                true,
            )
    }
}

/// The dominant colors of an image, the heaviest first: the palette that
/// clustering the histogram of its pixels gives, in the order of the
/// weights.
pub fn kmeans_calculate(source_img: &Raster, number_of_clusters: u32, max_try_count: u32) -> (centers:
    Vec<ColorPoint>)
    requires
        source_img.wf(),
    ensures
        is_palette_of(centers@, *source_img, number_of_clusters, max_try_count),
        (source_img.pixels().len() > 0 && number_of_clusters > 0) ==> centers.len()
            == number_of_clusters,
        ordered_by_weight(centers@, true),
        centers.len() > 0 ==> total_members(centers@) == histogram_of(source_img.pixels()).len(),
        forall|c: int|
            0 <= c < centers.len() ==> (#[trigger] centers[c]).total == histogram_of(
                source_img.pixels(),
            ).len(),
        forall|c: int| 0 <= c < centers.len() ==> (#[trigger] centers[c]).wf(),
{
    let histogram = from_image(source_img);
    let palette = cluster(&histogram, number_of_clusters, max_try_count);
    proof {
        lemma_histogram_empty(source_img.pixels());
        lemma_sorted_same_points(palette@, true);
        lemma_sorted_is_ordered(palette@, true);
        lemma_sorted_total_members(palette@, true);
    }
    let centers = sort_by_weight(&palette, true);
    proof {
        let n = histogram@.len();
        assert forall|c: int| 0 <= c < centers.len() implies (#[trigger] centers[c]).total == n by {
            assert(centers@.to_multiset().count(centers[c]) > 0) by {
                vstd::seq_lib::to_multiset_contains(centers@, centers[c]);
                assert(centers@.contains(centers[c]));
            }
            vstd::seq_lib::to_multiset_contains(palette@, centers[c]);
            let i = choose|i: int| 0 <= i < palette@.len() && palette@[i] == centers[c];
            assert(palette[i].total == n);
        }
    }
    centers
}

/// The width of the picture that `draw` makes of a picture of the given
/// width: a fifth wider, as far as `u32` goes.
pub open spec fn expanded_width(width: u32) -> u32 {
    if width * 6 / 5 > u32::MAX {
        u32::MAX
    } else {
        (width * 6 / 5) as u32
    }
}

/// The width of the picture that `draw` makes of a picture of the given
/// width.
pub fn expand(width: u32) -> (wider: u32)
    ensures
        wider == expanded_width(width),
        wider >= width,
{
    let wide: u64 = width as u64 * 6 / 5;
    if wide > u32::MAX as u64 {
        u32::MAX
    } else {
        wide as u32
    }
}

/// Where the band of `point` ends that begins at row `top` of a picture of
/// the given height: the band takes the share of the rows that the weight
/// of the point is, rounded up, and ends with the picture at the latest.
pub open spec fn band_bottom(top: nat, height: u32, point: ColorPoint) -> nat {
    let rows = (height * point.members + point.total - 1) / (point.total as int);
    if top + rows < height {
        (top + rows) as nat
    } else {
        height as nat
    }
}

/// The row at which the band of the point at position `i` begins.
pub open spec fn band_top(points: Seq<ColorPoint>, height: u32, i: nat) -> nat
    decreases i,
{
    if i == 0 {
        0
    } else {
        band_bottom(band_top(points, height, (i - 1) as nat), height, points[i - 1])
    }
}

/// The color of row `y` of the bands of the first `n` points: that of the
/// point whose band the row lies in, and black below the last band.
pub open spec fn band_color(points: Seq<ColorPoint>, height: u32, y: int, n: nat) -> RgbColor
    decreases n,
{
    if n == 0 {
        RgbColor { r: 0, g: 0, b: 0 }
    } else if band_top(points, height, (n - 1) as nat) <= y < band_top(points, height, n) {
        low_bits(points[n - 1].color)
    } else {
        band_color(points, height, y, (n - 1) as nat)
    }
}

proof fn lemma_band_top_bounds(points: Seq<ColorPoint>, height: u32, i: nat)
    requires
        forall|j: int| 0 <= j < points.len() ==> (#[trigger] points[j]).wf(),
        i < points.len(),
    ensures
        band_top(points, height, i) <= band_top(points, height, i + 1) <= height,
    decreases i,
{
    let point = points[i as int];
    let top = band_top(points, height, i);
    if i > 0 {
        lemma_band_top_bounds(points, height, (i - 1) as nat);
    }
    assert((height * point.members + point.total - 1) / (point.total as int) >= 0)
        by (nonlinear_arith)
        requires
            point.total > 0,
    ;
}

/// Paints the pixels in the columns from `left` up to `right` and the rows
/// from `top` up to `bottom` in the color `color`.
fn fill_area(img: &mut Raster, left: u32, right: u32, top: u32, bottom: u32, color: RgbColor)
    requires
        old(img).wf(),
        left <= right <= old(img).spec_width(),
        top <= bottom <= old(img).spec_height(),
    ensures
        final(img).wf(),
        final(img).spec_width() == old(img).spec_width(),
        final(img).spec_height() == old(img).spec_height(),
        forall|x: int, y: int|
            0 <= x < old(img).spec_width() && 0 <= y < old(img).spec_height()
                ==> #[trigger] final(img).pixel(x, y) == if left <= x < right && top <= y < bottom {
                low_bits(color)
            } else {
                old(img).pixel(x, y)
            },
{
    let ghost before = *img;
    let mut y: u32 = top;
    while y < bottom
        invariant
            top <= y <= bottom,
            img.wf(),
            img.spec_width() == before.spec_width(),
            img.spec_height() == before.spec_height(),
            left <= right <= img.spec_width(),
            bottom <= img.spec_height(),
            forall|px: int, py: int|
                0 <= px < img.spec_width() && 0 <= py < img.spec_height() ==> #[trigger] img.pixel(
                    px,
                    py,
                ) == if left <= px < right && top <= py < y {
                    low_bits(color)
                } else {
                    before.pixel(px, py)
                },
        decreases bottom - y,
    {
        let mut x: u32 = left;
        while x < right
            invariant
                left <= x <= right,
                top <= y < bottom,
                img.wf(),
                img.spec_width() == before.spec_width(),
                img.spec_height() == before.spec_height(),
                right <= img.spec_width(),
                bottom <= img.spec_height(),
                forall|px: int, py: int|
                    0 <= px < img.spec_width() && 0 <= py < img.spec_height() ==> #[trigger] img.pixel(
                        px,
                        py,
                    ) == if left <= px < right && top <= py < y || left <= px < x && py == y {
                        low_bits(color)
                    } else {
                        before.pixel(px, py)
                    },
            decreases right - x,
        {
            img.put_pixel(x, y, color);
            x += 1;
        }
        y += 1;
    }
}

/// Paints the part of `img` from column `left` up to column `right` in
/// bands, one below the other, in the colors of `centers` and in their order.
fn draw_base_colors_area(img: &mut Raster, centers: &Vec<ColorPoint>, left: u32, right: u32, height: u32)
    requires
        old(img).wf(),
        left <= right <= old(img).spec_width(),
        height == old(img).spec_height(),
        forall|j: int| 0 <= j < centers.len() ==> (#[trigger] centers[j]).wf(),
    ensures
        final(img).wf(),
        final(img).spec_width() == old(img).spec_width(),
        final(img).spec_height() == old(img).spec_height(),
        forall|x: int, y: int|
            0 <= x < old(img).spec_width() && 0 <= y < height ==> #[trigger] final(img).pixel(x, y)
                == if left <= x < right && y < band_top(centers@, height, centers.len() as nat) {
                band_color(centers@, height, y, centers.len() as nat)
            } else {
                old(img).pixel(x, y)
            },
{
    let ghost before = *img;
    let mut y_top: u32 = 0;
    let mut i: usize = 0;
    while i < centers.len()
        invariant
            i <= centers.len(),
            img.wf(),
            img.spec_width() == before.spec_width(),
            img.spec_height() == before.spec_height(),
            height == img.spec_height(),
            left <= right <= img.spec_width(),
            forall|j: int| 0 <= j < centers.len() ==> (#[trigger] centers[j]).wf(),
            y_top == band_top(centers@, height, i as nat),
            y_top <= height,
            forall|x: int, y: int|
                0 <= x < img.spec_width() && 0 <= y < height ==> #[trigger] img.pixel(x, y)
                    == if left <= x < right && y < y_top {
                    band_color(centers@, height, y, i as nat)
                } else {
                    before.pixel(x, y)
                },
        decreases centers.len() - i,
    {
        let point = centers[i];
        proof {
            lemma_band_top_bounds(centers@, height, i as nat);
        }
        assert(point.wf());
        assert(height * point.members <= 0xFFFF_FFFF * 0xFFFF_FFFF_FFFF_FFFF) by (nonlinear_arith)
            requires
                height <= 0xFFFF_FFFF,
                point.members <= 0xFFFF_FFFF_FFFF_FFFF,
        ;
        let rows: u128 = (height as u128 * point.members as u128 + point.total as u128 - 1) / (
        point.total as u128);
        let y_bottom: u32 = if rows < (height - y_top) as u128 {
            y_top + rows as u32
        } else {
            height
        };
        assert(y_bottom == band_top(centers@, height, (i + 1) as nat));
        fill_area(img, left, right, y_top, y_bottom, point.color);
        y_top = y_bottom;
        i += 1;
    }
}

/// The color that `draw` gives the pixel in column `x` of row `y`: that of
/// `source` where `source` has the column, and to the right of it that of
/// the band of `bands` in which the row lies.
pub open spec fn drawn_pixel(source: Raster, bands: Seq<ColorPoint>, x: int, y: int) -> RgbColor {
    if x < source.spec_width() {
        source.pixel(x, y)
    } else {
        band_color(bands, source.spec_height(), y, bands.len())
    }
}

/// `picture` is what `draw` makes of `source` and `base_colors`: a fifth
/// wider than `source` and as high, with `source` on the left and the bands
/// of the base colors, the lightest first, to the right of it.
pub open spec fn is_drawing_of(picture: Raster, source: Raster, base_colors: Seq<ColorPoint>) -> bool {
    &&& picture.wf()
    &&& picture.spec_width() == expanded_width(source.spec_width())
    &&& picture.spec_height() == source.spec_height()
    &&& forall|x: int, y: int|
        0 <= x < picture.spec_width() && 0 <= y < picture.spec_height()
            ==> #[trigger] picture.pixel(x, y) == drawn_pixel(
            source,
            sorted_by_weight(base_colors, false),
            x,
            y,
        )
}

/// A picture with `source_img` on the left and, in a strip to the right of
/// it, the base colors one below the other, the lightest first, each in a
/// band that takes the share of the height that its weight is.
pub fn draw(source_img: &Raster, base_colors: &Vec<ColorPoint>) -> (picture: Raster)
    requires
        source_img.wf(),
        forall|j: int| 0 <= j < base_colors.len() ==> (#[trigger] base_colors[j]).wf(),
        raster_len(expanded_width(source_img.spec_width()) as nat, source_img.spec_height() as nat)
            <= usize::MAX,
    ensures
        is_drawing_of(picture, *source_img, base_colors@),
{
    let (width, height) = source_img.dimensions();
    let out_img_width: u32 = expand(width);
    let mut out_img = Raster::new(out_img_width, height);
    let mut y: u32 = 0;
    while y < height
        invariant
            y <= height,
            source_img.wf(),
            out_img.wf(),
            width == source_img.spec_width(),
            height == source_img.spec_height(),
            out_img.spec_width() == out_img_width,
            out_img.spec_height() == height,
            width <= out_img_width,
            forall|px: int, py: int|
                0 <= px < out_img_width && 0 <= py < height ==> #[trigger] out_img.pixel(px, py)
                    == if px < width && py < y {
                    source_img.pixel(px, py)
                } else {
                    RgbColor { r: 0, g: 0, b: 0 }
                },
        decreases height - y,
    {
        let mut x: u32 = 0;
        while x < width
            invariant
                x <= width,
                y < height,
                source_img.wf(),
                out_img.wf(),
                width == source_img.spec_width(),
                height == source_img.spec_height(),
                out_img.spec_width() == out_img_width,
                out_img.spec_height() == height,
                width <= out_img_width,
                forall|px: int, py: int|
                    0 <= px < out_img_width && 0 <= py < height ==> #[trigger] out_img.pixel(px, py)
                        == if px < width && py < y || px < x && py == y {
                        source_img.pixel(px, py)
                    } else {
                        RgbColor { r: 0, g: 0, b: 0 }
                    },
            decreases width - x,
        {
            let pixel = source_img.get_pixel(x, y);
            out_img.put_pixel(x, y, pixel);
            x += 1;
        }
        y += 1;
    }
    let sorted_base_colors = sort_by_weight(base_colors, false);
    proof {
        lemma_sorted_same_points(base_colors@, false);
        assert forall|j: int| 0 <= j < sorted_base_colors.len() implies (
        #[trigger] sorted_base_colors[j]).wf() by {
            vstd::seq_lib::to_multiset_contains(sorted_base_colors@, sorted_base_colors[j]);
            assert(sorted_base_colors@.contains(sorted_base_colors[j]));
            vstd::seq_lib::to_multiset_contains(base_colors@, sorted_base_colors[j]);
            let i = choose|i: int|
                0 <= i < base_colors@.len() && base_colors@[i] == sorted_base_colors[j];
            assert(base_colors[i].wf());
        }
    }
    draw_base_colors_area(&mut out_img, &sorted_base_colors, width, out_img_width, height);
    proof {
        assert forall|x: int, y: int|
            0 <= x < out_img_width && 0 <= y < height implies #[trigger] out_img.pixel(x, y)
            == drawn_pixel(*source_img, sorted_base_colors@, x, y) by {
            if x >= width && y >= band_top(
                sorted_base_colors@,
                height,
                sorted_base_colors.len() as nat,
            ) {
                lemma_band_color_below(
                    sorted_base_colors@,
                    height,
                    y,
                    sorted_base_colors.len() as nat,
                );
            }
        }
    }
    out_img
}

proof fn lemma_band_color_below(points: Seq<ColorPoint>, height: u32, y: int, n: nat)
    requires
        forall|j: int| 0 <= j < points.len() ==> (#[trigger] points[j]).wf(),
        n <= points.len(),
        band_top(points, height, n) <= y,
    ensures
        band_color(points, height, y, n) == (RgbColor { r: 0, g: 0, b: 0 }),
    decreases n,
{
    if n > 0 {
        lemma_band_top_bounds(points, height, (n - 1) as nat);
        lemma_band_color_below(points, height, y, (n - 1) as nat);
    }
}

/// The dominant colors of the picture in an image file, the heaviest
/// first, where the decoder finds a picture in the file.
pub fn get_base_colors_info(buffer: &[u8], number_of_clusters: u32, max_try_count: u32) -> (info:
    Result<Vec<ColorPoint>, InvalidImage>)
    ensures
        info matches Ok(centers) ==> exists|source: Raster|
            {
                &&& source.wf()
                &&& #[trigger] is_palette_of(centers@, source, number_of_clusters, max_try_count)
            },
{
    base_colors_info_of(open_image_from_bytes(buffer), number_of_clusters, max_try_count)
}

/// Whether the picture that `draw` makes of a picture of the given size
/// has bytes that can be counted in `usize`.
pub open spec fn drawing_fits(width: u32, height: u32) -> bool {
    raster_len(expanded_width(width) as nat, height as nat) <= usize::MAX
}

/// The PNG file of a picture, as far as the encoder gives one.
pub fn png_of(picture: &Raster) -> (file: Result<Vec<u8>, InvalidImage>)
    requires
        picture.wf(),
    ensures
        match file {
            Ok(bytes) => png_encoded(picture.spec_width(), picture.spec_height(), picture.bytes())
                == Some(bytes@),
            Err(_) => png_encoded(picture.spec_width(), picture.spec_height(), picture.bytes())
                is None,
        },
{
    proof {
        picture.lemma_wf_len();
    }
    match encode_png(picture.width(), picture.height(), picture.as_raw()) {
        Ok(bytes) => Ok(bytes),
        Err(err) => Err(InvalidImage { message: error_text(&err) }),
    }
}

/// The PNG file of the picture that `draw` makes of the picture in an
/// image file and its dominant colors, where the decoder finds a picture
/// in the file, the drawing fits and the encoder gives a file.
pub fn get_png_image_with_base_colors(buffer: &[u8], number_of_clusters: u32, max_try_count: u32) -> (file:
    Result<Vec<u8>, InvalidImage>)
    ensures
        file matches Ok(bytes) ==> exists|source: Raster, centers: Seq<ColorPoint>, picture: Raster|
            {
                &&& source.wf()
                &&& drawing_fits(source.spec_width(), source.spec_height())
                &&& #[trigger] is_palette_of(centers, source, number_of_clusters, max_try_count)
                &&& #[trigger] is_drawing_of(picture, source, centers)
                &&& png_encoded(picture.spec_width(), picture.spec_height(), picture.bytes())
                    == Some(bytes@)
            },
{
    png_image_with_base_colors_of(
        open_image_from_bytes(buffer),
        number_of_clusters,
        max_try_count,
    )
}

/// The dominant colors of the picture that reading a file gave, the
/// heaviest first; where reading gave no picture, the reason it gave.
pub fn base_colors_info_of(
    image: Result<Raster, InvalidImage>,
    number_of_clusters: u32,
    max_try_count: u32,
) -> (info: Result<Vec<ColorPoint>, InvalidImage>)
    requires
        image matches Ok(source) ==> source.wf(),
    ensures
        match image {
            Ok(source) => info matches Ok(centers) && is_palette_of(
                centers@,
                source,
                number_of_clusters,
                max_try_count,
            ) && ordered_by_weight(centers@, true),
            Err(reason) => info == Err::<Vec<ColorPoint>, InvalidImage>(reason),
        },
{
    match image {
        Ok(source) => Ok(kmeans_calculate(&source, number_of_clusters, max_try_count)),
        Err(reason) => Err(reason),
    }
}

/// The PNG file of the picture that `draw` makes of the picture that
/// reading a file gave and of its dominant colors. There is none where
/// reading gave no picture, for the reason it gave; where the drawing does
/// not fit; and where the encoder gives no file for the drawing.
pub fn png_image_with_base_colors_of(
    image: Result<Raster, InvalidImage>,
    number_of_clusters: u32,
    max_try_count: u32,
) -> (file: Result<Vec<u8>, InvalidImage>)
    requires
        image matches Ok(source) ==> source.wf(),
    ensures
        match image {
            Ok(source) => if drawing_fits(source.spec_width(), source.spec_height()) {
                exists|centers: Seq<ColorPoint>, picture: Raster|
                    {
                        &&& #[trigger] is_palette_of(
                            centers,
                            source,
                            number_of_clusters,
                            max_try_count,
                        )
                        &&& #[trigger] is_drawing_of(picture, source, centers)
                        &&& match file {
                            Ok(bytes) => png_encoded(
                                picture.spec_width(),
                                picture.spec_height(),
                                picture.bytes(),
                            ) == Some(bytes@),
                            Err(_) => png_encoded(
                                picture.spec_width(),
                                picture.spec_height(),
                                picture.bytes(),
                            ) is None,
                        }
                    }
            } else {
                file is Err
            },
            Err(reason) => file == Err::<Vec<u8>, InvalidImage>(reason),
        },
{
    let source_img = match image {
        Ok(source) => source,
        Err(reason) => {
            return Err(reason);
        },
    };
    let base_colors = kmeans_calculate(&source_img, number_of_clusters, max_try_count);
    let (width, height) = source_img.dimensions();
    if !Raster::fits(expand(width), height) {
        return Err(InvalidImage { message: "the picture is too large to draw".to_owned() });
    }
    let result_img = draw(&source_img, &base_colors);
    let file = png_of(&result_img);
    assert(is_drawing_of(result_img, source_img, base_colors@));
    file
}

} // verus!
