//! Dominant colors of an image.
//!
//! The pixels of an image are counted into a histogram of its distinct
//! colors, and the histogram is clustered by weighted k-means: every color
//! counts as often as it has pixels when the centers are computed, and goes
//! to the center that is nearest to it. All of it is computed in exact
//! arithmetic: centers are fractions, and distances are compared without
//! rounding.
//!
//! - `img_utils` holds colors, pictures, the histogram, and what is made of
//!   a palette: its order, and the drawing of it beside the picture.
//! - `kmeans` holds the clustering, its model and the laws it obeys.
//! - `web` holds what a request for the dominant colors asks for.

pub mod img_utils;
pub mod kmeans;
pub mod web;
