pub mod base_colors;
pub mod codec;
pub mod color_point;
pub mod histogram;
pub mod raster;
pub mod rgb_color;
pub mod weight_order;
