use vstd::prelude::*;
use crate::cell::Cell;
use crate::grid_map::{GridMap, Size};

verus! {

/// An 8-bit grayscale raster decoded by the image crate, held opaquely; the
/// named functions below are what contracts know of it.
#[verifier::external_body]
pub struct GrayMapImage {
    inner: image::ImageBuffer<image::Luma<u8>, Vec<u8>>,
}

/// The samples an 8-bit grayscale buffer holds, row-major, one byte per
/// pixel.
pub uninterp spec fn gray_pixels_of(img: GrayMapImage) -> Seq<u8>;

/// The pixel width an 8-bit grayscale buffer was made with.
pub uninterp spec fn gray_width_of(img: GrayMapImage) -> nat;

/// The pixel height an 8-bit grayscale buffer was made with.
pub uninterp spec fn gray_height_of(img: GrayMapImage) -> nat;

/// Whether `bytes` decode to an 8-bit grayscale raster. Decoding is a
/// function of the bytes alone; these four names stand for its outcome.
pub uninterp spec fn luma8_decode_ok(bytes: Seq<u8>) -> bool;

/// The pixel width of the raster that `bytes` decode to.
pub uninterp spec fn luma8_decode_width(bytes: Seq<u8>) -> nat;

/// The pixel height of the raster that `bytes` decode to.
pub uninterp spec fn luma8_decode_height(bytes: Seq<u8>) -> nat;

/// The samples of the raster that `bytes` decode to, row-major.
pub uninterp spec fn luma8_decode_pixels(bytes: Seq<u8>) -> Seq<u8>;

/// Relies on image::load_from_memory and DynamicImage::as_luma8: decode an
/// encoded raster (PGM among other formats) from bytes, guessing the format,
/// and hand back the underlying buffer exactly when the decoded image is
/// 8-bit grayscale. Both steps depend on the bytes alone, so the outcome
/// carries the decode names.
#[verifier::external_body]
fn decode_luma8_from_bytes(bytes: &Vec<u8>) -> (r: Option<GrayMapImage>)
    ensures
        r is Some <==> luma8_decode_ok(bytes@),
        r matches Some(g) ==> {
            &&& gray_width_of(g) == luma8_decode_width(bytes@)
            &&& gray_height_of(g) == luma8_decode_height(bytes@)
            &&& gray_pixels_of(g) == luma8_decode_pixels(bytes@)
        },
{
    match image::load_from_memory(bytes.as_slice()) {
        Ok(decoded) => match decoded.as_luma8() {
            Some(g) => Some(GrayMapImage { inner: g.clone() }),
            None => None,
        },
        Err(_) => None,
    }
}

/// Relies on ImageBuffer::width: the width the buffer was made with.
#[verifier::external_body]
fn gray_image_width(img: &GrayMapImage) -> (r: u32)
    ensures
        r as nat == gray_width_of(*img),
{
    img.inner.width()
}

/// Relies on ImageBuffer::height: the height the buffer was made with.
#[verifier::external_body]
fn gray_image_height(img: &GrayMapImage) -> (r: u32)
    ensures
        r as nat == gray_height_of(*img),
{
    img.inner.height()
}

/// Relies on ImageBuffer::as_raw: the backing sample container. Every
/// constructor of the buffer checks that it holds at least width times height
/// samples (one per pixel for 8-bit grayscale).
#[verifier::external_body]
fn gray_image_raw(img: &GrayMapImage) -> (r: &Vec<u8>)
    ensures
        r@ == gray_pixels_of(*img),
        r@.len() >= gray_width_of(*img) * gray_height_of(*img),
{
    img.inner.as_raw()
}

/// Turn a decoded grayscale raster into a map: each pixel, row-major, becomes
/// a `Value` cell holding the raw sample. Absent when the buffer holds spare
/// samples beyond one per pixel, so that a returned map always pairs each
/// cell with exactly one pixel.
pub fn grid_map_from_gray_image(img: &GrayMapImage) -> (r: Option<GridMap<u8>>)
    ensures
        match r {
            Some(m) => {
                &&& gray_pixels_of(*img).len() == gray_width_of(*img) * gray_height_of(*img)
                &&& m.wf()
                &&& m.spec_size().width == gray_width_of(*img)
                &&& m.spec_size().height == gray_height_of(*img)
                &&& forall|i: int|
                    0 <= i < m@.len() ==> m@[i] == Cell::Value(gray_pixels_of(*img)[i])
            },
            None => gray_pixels_of(*img).len() != gray_width_of(*img) * gray_height_of(*img),
        },
{
    let width = gray_image_width(img);
    let height = gray_image_height(img);
    let raw = gray_image_raw(img);
    proof {
        assert((width as int) * (height as int) <= u64::MAX) by (nonlinear_arith)
            requires
                width <= u32::MAX,
                height <= u32::MAX,
        ;
    }
    let expected: u64 = (width as u64) * (height as u64);
    if (raw.len() as u64) != expected {
        return None;
    }
    let n = raw.len();
    let mut cells: Vec<Cell<u8>> = Vec::new();
    let mut k: usize = 0;
    while k < n
        invariant
            n == raw@.len(),
            k <= n,
            cells@.len() == k,
            raw@ == gray_pixels_of(*img),
            forall|i: int| 0 <= i < k ==> cells@[i] == Cell::Value(gray_pixels_of(*img)[i]),
        decreases n - k,
    {
        cells.push(Cell::from_value(raw[k]));
        k = k + 1;
    }
    let size = Size::new(width as usize, height as usize);
    proof {
        assert(size.width * size.height == raw@.len()) by (nonlinear_arith)
            requires
                size.width == width as usize,
                size.height == height as usize,
                width as u64 * height as u64 == raw@.len(),
                raw@.len() <= usize::MAX,
        ;
    }
    Some(GridMap::from_cells(size, cells))
}

/// Decode an encoded grayscale raster from bytes and lay it out as a map:
/// present exactly when the bytes decode to 8-bit grayscale with one sample
/// per pixel, and then each pixel, row-major, becomes a `Value` cell holding
/// its decoded sample.
pub fn grid_map_from_image_bytes(bytes: &Vec<u8>) -> (r: Option<GridMap<u8>>)
    ensures
        match r {
            Some(m) => {
                &&& luma8_decode_ok(bytes@)
                &&& luma8_decode_pixels(bytes@).len() == luma8_decode_width(bytes@)
                    * luma8_decode_height(bytes@)
                &&& m.wf()
                &&& m.spec_size().width == luma8_decode_width(bytes@)
                &&& m.spec_size().height == luma8_decode_height(bytes@)
                &&& forall|i: int|
                    0 <= i < m@.len() ==> m@[i] == Cell::Value(luma8_decode_pixels(bytes@)[i])
            },
            None => !luma8_decode_ok(bytes@) || luma8_decode_pixels(bytes@).len()
                != luma8_decode_width(bytes@) * luma8_decode_height(bytes@),
        },
{
    let gray = match decode_luma8_from_bytes(bytes) {
        Some(g) => g,
        None => {
            return None;
        },
    };
    grid_map_from_gray_image(&gray)
}

} // verus!
