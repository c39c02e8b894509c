//! Saving a plot as a picture.
use image::ImageBuffer;
use image::Rgba;
use vstd::prelude::*;

verus! {

/// A picture: its size and its bytes, four to a pixel, row by row. Bytes beyond
/// those of the pixels do not matter.
#[derive(Debug)]
pub struct Picture {
    pub width: u32,
    pub height: u32,
    pub bytes: Vec<u8>,
}

/// There are bytes for all pixels of this size, and those of a row can be counted.
pub open spec fn covers(width: u32, height: u32, len: nat) -> bool {
    4 * width <= usize::MAX && 4 * width * height <= len
}

/// `ImageBuffer::from_raw`, with four channels of eight bits: a picture of this size
/// with these bytes, exactly if there are enough of them.
#[verifier::external_body]
fn picture_of(width: u32, height: u32, bytes: Vec<u8>) -> (picture: Option<Picture>)
    ensures
        (picture is Some) == covers(width, height, bytes@.len()),
        picture matches Some(p) ==> p.width == width && p.height == height && p.bytes@ == bytes@,
{
    ImageBuffer::<Rgba<u8>, Vec<u8>>::from_raw(width, height, bytes).map(|buffer| Picture {
        width: buffer.width(),
        height: buffer.height(),
        bytes: buffer.into_raw(),
    })
}

/// The picture to save: of a screen of this size, with these bytes. Sizes keep their
/// lowest 32 bits.
pub fn save_screenshot(width: usize, height: usize, bytes: Vec<u8>) -> (picture: Option<Picture>)
    ensures
        (picture is Some) == covers(width as u32, height as u32, bytes@.len()),
        picture matches Some(p) ==> p.width == width as u32 && p.height == height as u32
            && p.bytes@ == bytes@,
{
    #[verifier::truncate]
    let columns: u32 = width as u32;
    #[verifier::truncate]
    let rows: u32 = height as u32;
    picture_of(columns, rows, bytes)
}

/// The file that a screenshot is saved to.
pub fn screenshot_file() -> (name: String)
    ensures
        name@ == "plot_export.png"@,
{
    "plot_export.png".to_owned()
}

} // verus!
