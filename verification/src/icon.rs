//! The tray icon's image, decoded from the bytes of an image file.
use vstd::prelude::*;

verus! {

/// The pixels that the `image` crate decodes from `bytes`: RGBA bytes, row
/// by row, with the width and the height; none when the bytes are not an
/// image it can read.
pub uninterp spec fn decoded_rgba(bytes: Seq<u8>) -> Option<(Seq<u8>, u32, u32)>;

/// Calls `image::load_from_memory` (which guesses the format from the
/// bytes and decodes them) and converts the image with `into_rgba8`. The
/// contract names the result, and states what the crate's `ImageBuffer`
/// guarantees: its buffer holds at least four bytes per pixel.
#[verifier::external_body]
pub(crate) fn decode_icon(bytes: &[u8]) -> (r: Option<(Vec<u8>, u32, u32)>)
    ensures
        r is None <==> decoded_rgba(bytes@) is None,
        r matches Some((px, w, h)) ==> decoded_rgba(bytes@) == Some((px@, w, h)) && px@.len()
            >= 4 * w * h,
{
    match image::load_from_memory(bytes) {
        Ok(img) => {
            let rgba = img.into_rgba8();
            let (w, h) = rgba.dimensions();
            Some((rgba.into_raw(), w, h))
        },
        Err(_) => None,
    }
}

/// The RGBA pixels, width and height of the icon image in `bytes`, or none
/// when the bytes are not a readable image.
pub fn load_icon_from_bytes(bytes: &[u8]) -> (r: Option<(Vec<u8>, u32, u32)>)
    ensures
        r is None <==> decoded_rgba(bytes@) is None,
        r matches Some((px, w, h)) ==> decoded_rgba(bytes@) == Some((px@, w, h)) && px@.len()
            >= 4 * w * h,
{
    decode_icon(bytes)
}

} // verus!
