//! The calls into the `image` crate that read and write image files.

use std::io::Cursor;
use vstd::prelude::*;

verus! {

/// `image::ImageError`, of which nothing is known here but that it has a
/// text.
#[verifier::external_type_specification]
#[verifier::external_body]
pub struct ExImageError(image::ImageError);

/// What `image::write_buffer_with_format` writes for pixels of three 8-bit
/// channels in the PNG format, or nothing where it fails.
pub uninterp spec fn png_encoded(width: u32, height: u32, data: Seq<u8>) -> Option<Seq<u8>>;

/// Decodes an image file with `image::load_from_memory` and turns it into
/// pixels of three 8-bit channels with `to_rgb8`: the width, the height and
/// the bytes of the pixels. Nothing is claimed of the outcome: what a
/// decoder makes of a file may differ from one machine to the next.
#[verifier::external_body]
pub(crate) fn decode_rgb8(data: &[u8]) -> (decoded: Result<(u32, u32, Vec<u8>), image::ImageError>) {
    let img = image::load_from_memory(data)?.to_rgb8();
    let (width, height) = img.dimensions();
    Ok((width, height, img.into_raw()))
}

/// Encodes pixels of three 8-bit channels as a PNG file with
/// `image::write_buffer_with_format`, which panics unless there are exactly
/// three bytes for every pixel. The contract names the outcome and says
/// nothing more of it.
#[verifier::external_body]
pub(crate) fn encode_png(width: u32, height: u32, data: &Vec<u8>) -> (encoded: Result<
    Vec<u8>,
    image::ImageError,
>)
    requires
        data.len() == 3 * width * height,
    ensures
        match encoded {
            Ok(bytes) => png_encoded(width, height, data@) == Some(bytes@),
            Err(_) => png_encoded(width, height, data@) is None,
        },
{
    let mut buff = Cursor::new(Vec::new());
    image::write_buffer_with_format(
        &mut buff,
        data,
        width,
        height,
        image::ColorType::Rgb8,
        image::ImageOutputFormat::Png,
    )?;
    Ok(buff.into_inner())
}

/// The text of an `image::ImageError`, as its `Display` gives it.
#[verifier::external_body]
pub(crate) fn error_text(err: &image::ImageError) -> String {
    err.to_string()
}

} // verus!
