//! From an image crop to the encoder's pixel tensor.
//!
//! As the model was trained: the crop is turned to grayscale, squished
//! (not padded) to `IMG_SIZE` × `IMG_SIZE` with a bilinear filter, turned
//! back to RGB, and laid out channel by channel (NCHW).  The caller maps each
//! byte `v` to `(v / 255 - 0.5) / 0.5`.  Crops are held as plain bytes
//! (`Crop`); the `image` crate does the grayscale and resize work.
use vstd::prelude::*;

use image::imageops::FilterType;
use image::{DynamicImage, GrayAlphaImage, GrayImage, RgbImage, RgbaImage};

use self::PixelLayout::{Luma8, LumaA8, Rgb8, Rgba8};

use crate::IMG_SIZE;

verus! {

/// How the bytes of a crop hold its pixels: one byte per channel, pixels row
/// by row; gray, gray and alpha, red-green-blue, or red-green-blue and alpha.
#[derive(Clone, Copy, Debug, PartialEq, Eq)]
pub enum PixelLayout {
    Luma8,
    LumaA8,
    Rgb8,
    Rgba8,
}

/// Bytes per pixel of `layout`.
pub open spec fn channels(layout: PixelLayout) -> nat {
    match layout {
        PixelLayout::Luma8 => 1,
        PixelLayout::LumaA8 => 2,
        PixelLayout::Rgb8 => 3,
        PixelLayout::Rgba8 => 4,
    }
}

/// `layout` holds gray pixels.
pub open spec fn is_gray(layout: PixelLayout) -> bool {
    layout == PixelLayout::Luma8 || layout == PixelLayout::LumaA8
}

/// The layout of the grayscale version of a `layout` image: the alpha
/// channel, where there is one, is kept.
pub open spec fn gray_layout(layout: PixelLayout) -> PixelLayout {
    match layout {
        PixelLayout::Luma8 | PixelLayout::Rgb8 => PixelLayout::Luma8,
        PixelLayout::LumaA8 | PixelLayout::Rgba8 => PixelLayout::LumaA8,
    }
}

/// A resampling filter, named as the `image` crate names them.
#[derive(Clone, Copy, Debug, PartialEq, Eq)]
pub enum ResizeFilter {
    Nearest,
    Triangle,
    CatmullRom,
    Gaussian,
    Lanczos3,
}

/// An image crop as plain values.
pub struct CropV {
    pub width: u32,
    pub height: u32,
    pub layout: PixelLayout,
    pub pixels: Seq<u8>,
}

/// An image crop: its size, its pixel layout, and its bytes, exactly
/// `channels(layout) * width * height` of them.
pub struct Crop {
    width: u32,
    height: u32,
    layout: PixelLayout,
    pixels: Vec<u8>,
}

/// The gray value of a red-green-blue pixel: its luminance with the sRGB
/// weights 0.2126, 0.7152 and 0.0722, computed in integers and rounded down.
pub open spec fn luma(r: u8, g: u8, b: u8) -> u8 {
    ((2126 * (r as int) + 7152 * (g as int) + 722 * (b as int)) / 10000) as u8
}

/// The bytes of the grayscale version of `pixels` pixels laid out as
/// `layout` (see `gray_layout`): RGB pixels become their `luma`, RGBA pixels
/// their `luma` followed by their alpha; gray pixels stay as they are.
pub open spec fn grayscale_bytes(layout: PixelLayout, pixels: Seq<u8>, count: nat) -> Seq<u8> {
    match layout {
        PixelLayout::Rgb8 => Seq::new(
            count,
            |p: int| luma(pixels[3 * p], pixels[3 * p + 1], pixels[3 * p + 2]),
        ),
        PixelLayout::Rgba8 => Seq::new(
            2 * count,
            |i: int|
                if i % 2 == 0 {
                    luma(pixels[4 * (i / 2)], pixels[4 * (i / 2) + 1], pixels[4 * (i / 2) + 2])
                } else {
                    pixels[4 * (i / 2) + 3]
                },
        ),
        _ => pixels,
    }
}

/// The 8-bit RGB bytes of an image resampled to `nwidth` × `nheight` with
/// `filter` (computed by the `image` crate).
pub uninterp spec fn resized_rgb8(
    layout: PixelLayout,
    width: u32,
    height: u32,
    pixels: Seq<u8>,
    nwidth: u32,
    nheight: u32,
    filter: ResizeFilter,
) -> Seq<u8>;

/// The grayscale version of crop `c`: same size, gray layout, and the bytes
/// of `grayscale_bytes` (for an image that is gray already, the same bytes).
pub open spec fn gray_of(c: CropV) -> CropV {
    CropV {
        width: c.width,
        height: c.height,
        layout: gray_layout(c.layout),
        pixels: grayscale_bytes(c.layout, c.pixels, (c.width * c.height) as nat),
    }
}

/// The RGB bytes the encoder sees for crop `c`: its grayscale version
/// squished to `IMG_SIZE` × `IMG_SIZE` with the bilinear (`Triangle`) filter.
pub open spec fn squished_gray_rgb8(c: CropV) -> Seq<u8> {
    let g = gray_of(c);
    resized_rgb8(g.layout, g.width, g.height, g.pixels, 224, 224, ResizeFilter::Triangle)
}

impl View for Crop {
    type V = CropV;

    closed spec fn view(&self) -> CropV {
        CropV { width: self.width, height: self.height, layout: self.layout, pixels: self.pixels@ }
    }
}

impl Crop {
    #[verifier::type_invariant]
    closed spec fn holds_all_pixels(&self) -> bool {
        self.pixels@.len() == channels(self.layout) * self.width * self.height
    }

    /// The crop of `width` × `height` pixels laid out as `layout` in
    /// `pixels`; `None` where `pixels` does not hold exactly
    /// `channels(layout) * width * height` bytes.
    pub fn new(width: u32, height: u32, layout: PixelLayout, pixels: Vec<u8>) -> (crop: Option<Crop>)
        ensures
            crop is Some <==> pixels@.len() == channels(layout) * width * height,
            crop matches Some(c) ==> c@ == (CropV { width, height, layout, pixels: pixels@ }),
    {
        let ch: u64 = match layout {
            PixelLayout::Luma8 => 1,
            PixelLayout::LumaA8 => 2,
            PixelLayout::Rgb8 => 3,
            PixelLayout::Rgba8 => 4,
        };
        assert((width as int) * (height as int) <= 0xffff_ffff_ffff_ffff) by (nonlinear_arith)
            requires
                width <= 0xffff_ffff,
                height <= 0xffff_ffff,
        ;
        let area: u128 = (width as u128) * (height as u128);
        assert((ch as int) * (area as int) <= 4 * 0xffff_ffff_ffff_ffff) by (nonlinear_arith)
            requires
                ch <= 4,
                area <= 0xffff_ffff_ffff_ffff,
        ;
        let expected: u128 = (ch as u128) * area;
        assert(expected == channels(layout) * width * height) by (nonlinear_arith)
            requires
                expected == ch * area,
                area == width * height,
                ch == channels(layout),
        ;
        if (pixels.len() as u128) == expected {
            Some(Crop { width, height, layout, pixels })
        } else {
            None
        }
    }

    pub fn width(&self) -> (w: u32)
        ensures
            w == self@.width,
    {
        self.width
    }

    pub fn height(&self) -> (h: u32)
        ensures
            h == self@.height,
    {
        self.height
    }

    pub fn layout(&self) -> (l: PixelLayout)
        ensures
            l == self@.layout,
    {
        self.layout
    }

    pub fn pixels(&self) -> (p: &Vec<u8>)
        ensures
            p@ == self@.pixels,
    {
        &self.pixels
    }

    /// The grayscale version of the crop (see `gray_of`).
    pub fn grayscale(&self) -> (gray: Crop)
        ensures
            gray@ == gray_of(self@),
            gray@.width == self@.width,
            gray@.height == self@.height,
            gray@.layout == gray_layout(self@.layout),
            gray@.pixels == grayscale_bytes(self@.layout, self@.pixels, (self@.width * self@.height) as nat),
    {
        grayscale(self)
    }
}

/// The grayscale version of `crop`.
///
/// Calls `image::DynamicImage::grayscale` on the image that `crop`
/// describes.  The contract claims what the source shows: the size is kept;
/// RGB becomes 8-bit gray and RGBA 8-bit gray with alpha, pixel by pixel in
/// the same order, each gray value `(2126 r + 7152 g + 722 b) / 10000` in
/// integer arithmetic (`rgb_to_luma`) and each alpha byte kept; an image that
/// is gray already is returned unchanged (`Luma8` is cloned, and `LumaA8`
/// pixels are copied channel for channel).
#[verifier::external_body]
fn grayscale(crop: &Crop) -> (gray: Crop)
    ensures
        gray@.width == crop@.width,
        gray@.height == crop@.height,
        gray@.layout == gray_layout(crop@.layout),
        gray@.pixels == grayscale_bytes(crop@.layout, crop@.pixels, (crop@.width * crop@.height) as nat),
{
    let (w, h, px) = (crop.width, crop.height, crop.pixels.clone());
    let img = match crop.layout {
        Luma8 => DynamicImage::ImageLuma8(GrayImage::from_raw(w, h, px).unwrap()),
        LumaA8 => DynamicImage::ImageLumaA8(GrayAlphaImage::from_raw(w, h, px).unwrap()),
        Rgb8 => DynamicImage::ImageRgb8(RgbImage::from_raw(w, h, px).unwrap()),
        Rgba8 => DynamicImage::ImageRgba8(RgbaImage::from_raw(w, h, px).unwrap()),
    };
    match img.grayscale() {
        DynamicImage::ImageLumaA8(b) => Crop { width: w, height: h, layout: LumaA8, pixels: b.into_raw() },
        g => Crop { width: w, height: h, layout: Luma8, pixels: g.into_luma8().into_raw() },
    }
}

/// The gray `crop` resampled to exactly `nwidth` × `nheight` with `filter`,
/// as 8-bit RGB bytes, row by row, three bytes per pixel.
///
/// Calls `image::DynamicImage::resize_exact` on the image that `crop`
/// describes, then turns the result into bytes with `to_rgb8` and
/// `into_raw`.  The contract claims what the source shows: the bytes are
/// those the name `resized_rgb8` stands for; there are `3 * nwidth *
/// nheight` of them (every path of the resize builds a buffer of exactly the
/// requested size); and the three bytes of each pixel are
/// equal (the conversion to RGB copies the gray value into each channel).
/// Only gray crops are taken.
/// A source too large for its four-channel float copy to be allocated is not
/// excluded here.
#[verifier::external_body]
fn resize_exact_rgb8(crop: &Crop, nwidth: u32, nheight: u32, filter: ResizeFilter) -> (raw: Vec<u8>)
    requires
        is_gray(crop@.layout),
        4 * nwidth * nheight <= usize::MAX,
    ensures
        raw@ == resized_rgb8(crop@.layout, crop@.width, crop@.height, crop@.pixels, nwidth, nheight, filter),
        raw@.len() == 3 * nwidth * nheight,
        forall|p: int|
            0 <= p < nwidth * nheight ==> #[trigger] raw@[3 * p] == raw@[3 * p + 1] && raw@[3 * p] == raw@[3 * p + 2],
{
    let (w, h, px) = (crop.width, crop.height, crop.pixels.clone());
    let img = if crop.layout == LumaA8 {
        DynamicImage::ImageLumaA8(GrayAlphaImage::from_raw(w, h, px).unwrap())
    } else {
        DynamicImage::ImageLuma8(GrayImage::from_raw(w, h, px).unwrap())
    };
    let f = match filter {
        ResizeFilter::Nearest => FilterType::Nearest,
        ResizeFilter::Triangle => FilterType::Triangle,
        ResizeFilter::CatmullRom => FilterType::CatmullRom,
        ResizeFilter::Gaussian => FilterType::Gaussian,
        ResizeFilter::Lanczos3 => FilterType::Lanczos3,
    };
    img.resize_exact(nwidth, nheight, f).to_rgb8().into_raw()
}

/// The planes of `pixels` interleaved three-channel pixels: the first
/// channel of every pixel, then the second, then the third.
pub open spec fn is_planar_of<T>(out: Seq<T>, raw: Seq<T>, pixels: int) -> bool {
    &&& out.len() == 3 * pixels
    &&& forall|p: int|
        0 <= p < pixels ==> {
            &&& #[trigger] out[p] == raw[3 * p]
            &&& out[pixels + p] == raw[3 * p + 1]
            &&& out[2 * pixels + p] == raw[3 * p + 2]
        }
}

/// Splits interleaved three-channel pixels (`r g b r g b ...`) into planes
/// (`r r ... g g ... b b ...`), pixel order kept.
pub fn planar_from_interleaved<T: Copy>(raw: &Vec<T>, pixels: usize) -> (out: Vec<T>)
    requires
        3 * pixels <= raw.len(),
    ensures
        is_planar_of(out@, raw@, pixels as int),
{
    let mut out: Vec<T> = Vec::new();
    for p in 0..pixels
        invariant
            3 * pixels <= raw.len(),
            out@.len() == p,
            forall|q: int| 0 <= q < p ==> #[trigger] out@[q] == raw@[3 * q],
    {
        out.push(raw[3 * p]);
    }
    for p in 0..pixels
        invariant
            3 * pixels <= raw.len(),
            out@.len() == pixels + p,
            forall|q: int| 0 <= q < pixels ==> #[trigger] out@[q] == raw@[3 * q],
            forall|q: int| 0 <= q < p ==> #[trigger] out@[pixels + q] == raw@[3 * q + 1],
    {
        out.push(raw[3 * p + 1]);
    }
    for p in 0..pixels
        invariant
            3 * pixels <= raw.len(),
            out@.len() == 2 * pixels + p,
            forall|q: int| 0 <= q < pixels ==> #[trigger] out@[q] == raw@[3 * q],
            forall|q: int| 0 <= q < pixels ==> #[trigger] out@[pixels + q] == raw@[3 * q + 1],
            forall|q: int| 0 <= q < p ==> #[trigger] out@[2 * pixels + q] == raw@[3 * q + 2],
    {
        out.push(raw[3 * p + 2]);
    }
    out
}

/// The encoder's input for `crop`: its shape `[1, 3, IMG_SIZE, IMG_SIZE]`
/// and its bytes, plane by plane (see `is_planar_of`), of the crop's
/// grayscale version squished to `IMG_SIZE` × `IMG_SIZE` with the bilinear
/// filter (`squished_gray_rgb8`).  The three planes are equal: the gray value
/// of each pixel is copied to red, green and blue.
pub fn preprocess(crop: &Crop) -> (input: ([usize; 4], Vec<u8>))
    ensures
        input.0@ == seq![1usize, 3usize, IMG_SIZE, IMG_SIZE],
        is_planar_of(input.1@, squished_gray_rgb8(crop@), (IMG_SIZE * IMG_SIZE) as int),
        is_planar_of(
            input.1@,
            resized_rgb8(
                gray_layout(crop@.layout),
                crop@.width,
                crop@.height,
                grayscale_bytes(crop@.layout, crop@.pixels, (crop@.width * crop@.height) as nat),
                224,
                224,
                ResizeFilter::Triangle,
            ),
            (IMG_SIZE * IMG_SIZE) as int,
        ),
        forall|p: int|
            0 <= p < IMG_SIZE * IMG_SIZE ==> #[trigger] input.1@[p] == input.1@[IMG_SIZE * IMG_SIZE + p]
                && input.1@[p] == input.1@[2 * IMG_SIZE * IMG_SIZE + p],
{
    let gray = crop.grayscale();
    let side: u32 = 224;
    let raw = resize_exact_rgb8(&gray, side, side, ResizeFilter::Triangle);
    let planes = planar_from_interleaved(&raw, IMG_SIZE * IMG_SIZE);
    assert forall|p: int| 0 <= p < IMG_SIZE * IMG_SIZE implies #[trigger] planes@[p] == planes@[IMG_SIZE * IMG_SIZE + p]
        && planes@[p] == planes@[2 * IMG_SIZE * IMG_SIZE + p] by {
        assert(raw@[3 * p] == raw@[3 * p + 1] && raw@[3 * p] == raw@[3 * p + 2]);
    }
    ([1, 3, IMG_SIZE, IMG_SIZE], planes)
}

/// The encoder's input is the crop's grayscale bytes resampled to 224 × 224
/// with the bilinear (`Triangle`) filter, the one the model was trained with.
pub proof fn lemma_encoder_input_is_bilinear(c: CropV)
    ensures
        squished_gray_rgb8(c) == resized_rgb8(
            gray_layout(c.layout),
            c.width,
            c.height,
            grayscale_bytes(c.layout, c.pixels, (c.width * c.height) as nat),
            224,
            224,
            ResizeFilter::Triangle,
        ),
{
}

/// The encoder sees a crop only through its grayscale version: a crop and
/// its grayscale version give the same input.
pub proof fn lemma_preprocess_sees_only_gray(c: CropV)
    ensures
        squished_gray_rgb8(gray_of(c)) == squished_gray_rgb8(c),
{
    assert(gray_of(gray_of(c)) == gray_of(c));
}

} // verus!
