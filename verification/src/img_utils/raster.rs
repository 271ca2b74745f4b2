//! Pictures as plain grids of pixels.

use crate::img_utils::rgb_color::RgbColor;
use vstd::prelude::*;

verus! {

/// A rectangular grid of pixels with three 8-bit channels each, stored row
/// by row, three bytes to the pixel.
#[derive(Debug)]
pub struct Raster {
    width: u32,
    height: u32,
    data: Vec<u8>,
}

/// The number of bytes that a grid of the given size takes.
pub open spec fn raster_len(width: nat, height: nat) -> nat {
    3 * width * height
}

/// The pixel that starts at byte `3 * i` of `data`.
pub open spec fn pixel_at(data: Seq<u8>, i: int) -> RgbColor {
    RgbColor { r: data[3 * i] as u32, g: data[3 * i + 1] as u32, b: data[3 * i + 2] as u32 }
}

/// The pixels that `data` holds, three bytes each.
pub open spec fn pixels_of(data: Seq<u8>) -> Seq<RgbColor> {
    Seq::new(data.len() / 3, |i: int| pixel_at(data, i))
}

proof fn lemma_pixel_index(width: nat, height: nat, x: nat, y: nat)
    requires
        x < width,
        y < height,
    ensures
        y * width + x < width * height,
        y * width <= width * height,
        3 * (y * width + x) + 2 < raster_len(width, height),
{
    assert(y * width + x < width * height) by (nonlinear_arith)
        requires
            x < width,
            y < height,
    ;
    assert(y * width <= width * height) by (nonlinear_arith)
        requires
            y < height,
    ;
    assert(3 * width * height == 3 * (width * height)) by (nonlinear_arith);
}

proof fn lemma_pixel_index_distinct(width: nat, x: nat, y: nat, other_x: nat, other_y: nat)
    requires
        x < width,
        other_x < width,
        x != other_x || y != other_y,
    ensures
        y * width + x != other_y * width + other_x,
{
    if y < other_y {
        assert(y * width + width <= other_y * width) by (nonlinear_arith)
            requires
                y < other_y,
        ;
    } else if other_y < y {
        assert(other_y * width + width <= y * width) by (nonlinear_arith)
            requires
                other_y < y,
        ;
    }
}

/// The color with only the lowest eight bits of each channel.
pub open spec fn low_bits(color: RgbColor) -> RgbColor {
    RgbColor { r: color.r % 256, g: color.g % 256, b: color.b % 256 }
}

impl Raster {
    /// The grid holds exactly the bytes of its pixels.
    pub closed spec fn wf(&self) -> bool {
        self.data.len() == raster_len(self.width as nat, self.height as nat)
    }

    /// A valid grid has three bytes for every pixel.
    pub proof fn lemma_wf_len(&self)
        requires
            self.wf(),
        ensures
            self.bytes().len() == raster_len(self.spec_width() as nat, self.spec_height() as nat),
    {
    }

    pub closed spec fn spec_width(&self) -> u32 {
        self.width
    }

    pub closed spec fn spec_height(&self) -> u32 {
        self.height
    }

    /// The bytes of the grid.
    pub closed spec fn bytes(&self) -> Seq<u8> {
        self.data@
    }

    /// The pixels, row by row.
    pub open spec fn pixels(&self) -> Seq<RgbColor> {
        pixels_of(self.bytes())
    }

    /// The pixel in column `x` of row `y`.
    pub open spec fn pixel(&self, x: int, y: int) -> RgbColor {
        pixel_at(self.bytes(), y * self.spec_width() + x)
    }

    /// A grid of the given size over `data`, if `data` has the length for it.
    pub fn from_raw(width: u32, height: u32, data: Vec<u8>) -> (raster: Option<Raster>)
        ensures
            data.len() == raster_len(width as nat, height as nat) ==> raster is Some,
            data.len() != raster_len(width as nat, height as nat) ==> raster is None,
            raster matches Some(r) ==> r.wf() && r.spec_width() == width && r.spec_height() == height
                && r.bytes() == data@,
    {
        assert(3 * width * height <= 3 * 0xFFFF_FFFF * 0xFFFF_FFFF) by (nonlinear_arith)
            requires
                width <= 0xFFFF_FFFF,
                height <= 0xFFFF_FFFF,
        ;
        let expected: u128 = 3 * (width as u128) * (height as u128);
        if data.len() as u128 == expected {
            Some(Raster { width, height, data })
        } else {
            None
        }
    }

    /// Whether the bytes of a grid of the given size can be counted in
    /// `usize`.
    pub fn fits(width: u32, height: u32) -> (fits: bool)
        ensures
            fits == (raster_len(width as nat, height as nat) <= usize::MAX),
    {
        assert(3 * width * height <= 3 * 0xFFFF_FFFF * 0xFFFF_FFFF) by (nonlinear_arith)
            requires
                width <= 0xFFFF_FFFF,
                height <= 0xFFFF_FFFF,
        ;
        3 * (width as u128) * (height as u128) <= usize::MAX as u128
    }

    /// A black grid of the given size.
    pub fn new(width: u32, height: u32) -> (raster: Raster)
        requires
            raster_len(width as nat, height as nat) <= usize::MAX,
        ensures
            raster.wf(),
            raster.spec_width() == width,
            raster.spec_height() == height,
            forall|x: int, y: int|
                0 <= x < width && 0 <= y < height ==> #[trigger] raster.pixel(x, y) == (RgbColor {
                    r: 0,
                    g: 0,
                    b: 0,
                }),
    {
        assert(3 * width * height <= 3 * 0xFFFF_FFFF * 0xFFFF_FFFF) by (nonlinear_arith)
            requires
                width <= 0xFFFF_FFFF,
                height <= 0xFFFF_FFFF,
        ;
        let len: usize = (3 * (width as u128) * (height as u128)) as usize;
        let mut data: Vec<u8> = Vec::new();
        let mut i: usize = 0;
        while i < len
            invariant
                i <= len,
                data.len() == i,
                forall|j: int| 0 <= j < i ==> data[j] == 0,
            decreases len - i,
        {
            data.push(0);
            i += 1;
        }
        let raster = Raster { width, height, data };
        assert forall|x: int, y: int| 0 <= x < width && 0 <= y < height implies #[trigger] raster.pixel(
            x,
            y,
        ) == (RgbColor { r: 0, g: 0, b: 0 }) by {
            lemma_pixel_index(width as nat, height as nat, x as nat, y as nat);
        }
        raster
    }

    pub fn width(&self) -> (width: u32)
        ensures
            width == self.spec_width(),
    {
        self.width
    }

    pub fn height(&self) -> (height: u32)
        ensures
            height == self.spec_height(),
    {
        self.height
    }

    pub fn dimensions(&self) -> (size: (u32, u32))
        ensures
            size == (self.spec_width(), self.spec_height()),
    {
        (self.width, self.height)
    }

    /// The bytes of the grid: row by row, three to the pixel.
    pub fn as_raw(&self) -> (data: &Vec<u8>)
        ensures
            data@ == self.bytes(),
    {
        &self.data
    }

    pub fn into_raw(self) -> (data: Vec<u8>)
        ensures
            data@ == self.bytes(),
    {
        self.data
    }

    /// The number of pixels.
    pub fn pixel_count(&self) -> (count: usize)
        requires
            self.wf(),
        ensures
            count == self.pixels().len(),
            count == self.spec_width() * self.spec_height(),
    {
        assert(3 * self.width * self.height == 3 * (self.width * self.height)) by (nonlinear_arith);
        self.data.len() / 3
    }

    /// The pixel at position `i`, counted row by row.
    pub fn nth_pixel(&self, i: usize) -> (color: RgbColor)
        requires
            self.wf(),
            i < self.pixels().len(),
        ensures
            color == self.pixels()[i as int],
    {
        RgbColor::new(self.data[3 * i] as u32, self.data[3 * i + 1] as u32, self.data[3 * i + 2] as u32)
    }

    /// The pixel in column `x` of row `y`.
    pub fn get_pixel(&self, x: u32, y: u32) -> (color: RgbColor)
        requires
            self.wf(),
            x < self.spec_width(),
            y < self.spec_height(),
        ensures
            color == self.pixel(x as int, y as int),
    {
        proof {
            lemma_pixel_index(self.width as nat, self.height as nat, x as nat, y as nat);
        }
        let i: usize = y as usize * self.width as usize + x as usize;
        RgbColor::new(self.data[3 * i] as u32, self.data[3 * i + 1] as u32, self.data[3 * i + 2] as u32)
    }

    /// Sets the pixel in column `x` of row `y` to the lowest eight bits of
    /// each channel of `color`, and leaves the other pixels as they are.
    pub fn put_pixel(&mut self, x: u32, y: u32, color: RgbColor)
        requires
            old(self).wf(),
            x < old(self).spec_width(),
            y < old(self).spec_height(),
        ensures
            final(self).wf(),
            final(self).spec_width() == old(self).spec_width(),
            final(self).spec_height() == old(self).spec_height(),
            final(self).pixel(x as int, y as int) == low_bits(color),
            forall|other_x: int, other_y: int|
                0 <= other_x < old(self).spec_width() && 0 <= other_y < old(self).spec_height() && (
                other_x != x || other_y != y) ==> #[trigger] final(self).pixel(other_x, other_y)
                    == old(self).pixel(other_x, other_y),
    {
        proof {
            lemma_pixel_index(self.width as nat, self.height as nat, x as nat, y as nat);
        }
        let ghost before = self.data@;
        let i: usize = y as usize * self.width as usize + x as usize;
        self.data.set(3 * i, (color.r % 256) as u8);
        self.data.set(3 * i + 1, (color.g % 256) as u8);
        self.data.set(3 * i + 2, (color.b % 256) as u8);
        proof {
            assert forall|other_x: int, other_y: int|
                0 <= other_x < self.width && 0 <= other_y < self.height && (other_x != x || other_y
                    != y) implies #[trigger] self.pixel(other_x, other_y) == pixel_at(
                before,
                other_y * self.width + other_x,
            ) by {
                lemma_pixel_index_distinct(
                    self.width as nat,
                    x as nat,
                    y as nat,
                    other_x as nat,
                    other_y as nat,
                );
                lemma_pixel_index(
                    self.width as nat,
                    self.height as nat,
                    other_x as nat,
                    other_y as nat,
                );
            }
        }
    }
}

} // verus!
