//! Pictures on their way out: brought to a size that is accepted, in the smallest encoding.

use vstd::prelude::*;

use crate::strings::{dec, push_dec};

verus! {

broadcast use vstd::seq::group_seq_axioms;

/// How many bytes a picture may have that comes in.
pub const MAX_INPUT_BYTES: usize = 20_971_520;

/// How many pixels it may have.
pub const MAX_PIXELS: u64 = 64_000_000;

/// How many bytes may be used to decode it: four for each pixel.
pub const MAX_DECODE_BYTES: u64 = 256_000_000;

/// How long one of its sides may be.
pub const MAX_DECODE_SIDE: u32 = 64_000_000;

/// The kinds of pictures that are known.
#[derive(Debug, Clone, Copy, PartialEq, Eq, Structural)]
pub enum ImageMime {
    Png,
    Jpeg,
    Webp,
    /// Never an encoding that is chosen: only what came in.
    Gif,
}

/// The kinds of pictures that can be told by their first bytes.
#[derive(Debug, Clone, Copy, PartialEq, Eq, Structural)]
pub enum Format {
    Png,
    Jpeg,
    Webp,
    Gif,
    Other,
}

/// The kind that a format is, if it is known.
pub open spec fn mime_of(format: Format) -> Option<ImageMime> {
    match format {
        Format::Png => Some(ImageMime::Png),
        Format::Jpeg => Some(ImageMime::Jpeg),
        Format::Webp => Some(ImageMime::Webp),
        Format::Gif => Some(ImageMime::Gif),
        Format::Other => None,
    }
}

impl ImageMime {
    /// The kind's name on the wire.
    pub fn as_str(self) -> (r: &'static str)
        ensures
            r@ == match self {
                ImageMime::Png => "image/png"@,
                ImageMime::Jpeg => "image/jpeg"@,
                ImageMime::Webp => "image/webp"@,
                ImageMime::Gif => "image/gif"@,
            },
    {
        match self {
            ImageMime::Png => "image/png",
            ImageMime::Jpeg => "image/jpeg",
            ImageMime::Webp => "image/webp",
            ImageMime::Gif => "image/gif",
        }
    }

    /// The kind that a format is, if it is known.
    pub fn from_format(format: Format) -> (r: Option<ImageMime>)
        ensures
            r == mime_of(format),
    {
        match format {
            Format::Png => Some(ImageMime::Png),
            Format::Jpeg => Some(ImageMime::Jpeg),
            Format::Webp => Some(ImageMime::Webp),
            Format::Gif => Some(ImageMime::Gif),
            Format::Other => None,
        }
    }
}

/// What went wrong. What a decoder or an encoder said of it is a text.
#[derive(Debug, Clone, PartialEq, Eq)]
pub enum ImageError {
    UnknownFormat,
    Decode { reason: String },
    Encode { mime: ImageMime, reason: String },
    TooLarge { bytes: usize, limit: usize },
    DegenerateDimensions { width: u32, height: u32 },
    TooManyPixels { width: u32, height: u32, limit: u64 },
}

/// What an [`ImageError`] is.
#[verifier::ext_equal]
pub enum ErrorView {
    UnknownFormat,
    Decode { reason: Seq<char> },
    Encode { mime: ImageMime, reason: Seq<char> },
    TooLarge { bytes: usize, limit: usize },
    DegenerateDimensions { width: u32, height: u32 },
    TooManyPixels { width: u32, height: u32, limit: u64 },
}

impl View for ImageError {
    type V = ErrorView;

    open spec fn view(&self) -> ErrorView {
        match *self {
            ImageError::UnknownFormat => ErrorView::UnknownFormat,
            ImageError::Decode { reason } => ErrorView::Decode { reason: reason@ },
            ImageError::Encode { mime, reason } => ErrorView::Encode { mime, reason: reason@ },
            ImageError::TooLarge { bytes, limit } => ErrorView::TooLarge { bytes, limit },
            ImageError::DegenerateDimensions { width, height } => ErrorView::DegenerateDimensions {
                width,
                height,
            },
            ImageError::TooManyPixels { width, height, limit } => ErrorView::TooManyPixels {
                width,
                height,
                limit,
            },
        }
    }
}

/// A kind in words.
pub open spec fn mime_word(mime: ImageMime) -> Seq<char> {
    match mime {
        ImageMime::Png => "Png"@,
        ImageMime::Jpeg => "Jpeg"@,
        ImageMime::Webp => "Webp"@,
        ImageMime::Gif => "Gif"@,
    }
}

/// An error in words.
pub open spec fn image_error_text(e: ErrorView) -> Seq<char> {
    match e {
        ErrorView::UnknownFormat => "无法识别图像格式"@,
        ErrorView::Decode { reason } => "图像解码失败："@ + reason,
        ErrorView::Encode { mime, reason } => "以 "@ + mime_word(mime) + " 编码图像失败："@ + reason,
        ErrorView::TooLarge { bytes, limit } => "图像字节数 "@ + dec(bytes as nat) + " 超过上限 "@
            + dec(limit as nat),
        ErrorView::DegenerateDimensions { width, height } => "图像尺寸退化："@ + dec(width as nat)
            + "×"@ + dec(height as nat),
        ErrorView::TooManyPixels { width, height, limit } => "图像像素总数 "@ + dec(width as nat)
            + "×"@ + dec(height as nat) + " 超过上限 "@ + dec(limit as nat),
    }
}

impl ImageError {
    /// The error in words.
    pub fn to_string(&self) -> (r: String)
        ensures
            r@ == image_error_text(self@),
    {
        match self {
            ImageError::UnknownFormat => "无法识别图像格式".to_owned(),
            ImageError::Decode { reason } => {
                let mut r = "图像解码失败：".to_owned();
                r.append(reason.as_str());
                r
            },
            ImageError::Encode { mime, reason } => {
                let mut r = "以 ".to_owned();
                r.append(
                    match mime {
                        ImageMime::Png => "Png",
                        ImageMime::Jpeg => "Jpeg",
                        ImageMime::Webp => "Webp",
                        ImageMime::Gif => "Gif",
                    },
                );
                r.append(" 编码图像失败：");
                r.append(reason.as_str());
                r
            },
            ImageError::TooLarge { bytes, limit } => {
                let mut r = "图像字节数 ".to_owned();
                push_dec(&mut r, *bytes as u64);
                r.append(" 超过上限 ");
                push_dec(&mut r, *limit as u64);
                r
            },
            ImageError::DegenerateDimensions { width, height } => {
                let mut r = "图像尺寸退化：".to_owned();
                push_dec(&mut r, *width as u64);
                r.append("×");
                push_dec(&mut r, *height as u64);
                r
            },
            ImageError::TooManyPixels { width, height, limit } => {
                let mut r = "图像像素总数 ".to_owned();
                push_dec(&mut r, *width as u64);
                r.append("×");
                push_dec(&mut r, *height as u64);
                r.append(" 超过上限 ");
                push_dec(&mut r, *limit);
                r
            },
        }
    }
}

/// How pictures are brought to size.
#[derive(Debug, Clone, Copy, PartialEq, Eq, Structural)]
pub struct ResizeOptions {
    pub max_width: u32,
    pub max_height: u32,
    /// A side that is shorter is brought to this length.
    pub min_dimension: u32,
    /// How many bytes the result should have.
    pub max_bytes: usize,
    /// The quality of the first JPEG, from 1 to 100.
    pub jpeg_quality: u8,
    pub allow_webp: bool,
}

impl Default for ResizeOptions {
    fn default() -> (r: Self)
        ensures
            r == (ResizeOptions {
                max_width: 1568,
                max_height: 1568,
                min_dimension: 200,
                max_bytes: 500_000,
                jpeg_quality: 80,
                allow_webp: true,
            }),
    {
        ResizeOptions {
            max_width: 1568,
            max_height: 1568,
            min_dimension: 200,
            max_bytes: 500_000,
            jpeg_quality: 80,
            allow_webp: true,
        }
    }
}

/// A picture that may go out.
#[derive(Debug, Clone)]
pub struct ProcessedImage {
    pub bytes: Vec<u8>,
    pub mime: ImageMime,
    pub width: u32,
    pub height: u32,
    pub original_width: u32,
    pub original_height: u32,
    /// Whether it is another file than the one that came in.
    pub reencoded: bool,
}

/// What a [`ProcessedImage`] is.
#[verifier::ext_equal]
pub struct ProcessedView {
    pub bytes: Seq<u8>,
    pub mime: ImageMime,
    pub width: u32,
    pub height: u32,
    pub original_width: u32,
    pub original_height: u32,
    pub reencoded: bool,
}

impl View for ProcessedImage {
    type V = ProcessedView;

    open spec fn view(&self) -> ProcessedView {
        ProcessedView {
            bytes: self.bytes@,
            mime: self.mime,
            width: self.width,
            height: self.height,
            original_width: self.original_width,
            original_height: self.original_height,
            reencoded: self.reencoded,
        }
    }
}

impl ProcessedImage {
    /// What is said of a picture whose size was changed. `scale_x` and `scale_y` are how many pixels
    /// of the original one pixel stands for, as text.
    pub fn dimension_note(&self, scale_x: &str, scale_y: &str) -> (r: Option<String>)
        ensures
            match r {
                None => self.width == self.original_width && self.height == self.original_height,
                Some(text) => {
                    &&& self.width != self.original_width || self.height != self.original_height
                    &&& text@ == "图片已从原始 "@ + dec(self.original_width as nat) + "×"@ + dec(
                        self.original_height as nat,
                    ) + " 缩放到 "@ + dec(self.width as nat) + "×"@ + dec(self.height as nat)
                        + " 后再发送给模型；模型给出的像素坐标需分别乘以约 "@ + scale_x@
                        + "（横轴）与 "@ + scale_y@ + "（纵轴）才能换算回原图坐标。"@
                },
            },
    {
        if self.width == self.original_width && self.height == self.original_height {
            return None;
        }
        let mut r = "图片已从原始 ".to_owned();
        push_dec(&mut r, self.original_width as u64);
        r.append("×");
        push_dec(&mut r, self.original_height as u64);
        r.append(" 缩放到 ");
        push_dec(&mut r, self.width as u64);
        r.append("×");
        push_dec(&mut r, self.height as u64);
        r.append(" 后再发送给模型；模型给出的像素坐标需分别乘以约 ");
        r.append(scale_x);
        r.append("（横轴）与 ");
        r.append(scale_y);
        r.append("（纵轴）才能换算回原图坐标。");
        Some(r)
    }
}

// Sizes

/// `a * b / c`, rounded to the nearest whole number, no less than one.
pub open spec fn rounded(a: nat, b: nat, c: nat) -> nat {
    let q = if c == 0 {
        a
    } else {
        (a * b + c / 2) / c
    };
    if q < 1 {
        1
    } else if q > u32::MAX {
        u32::MAX as nat
    } else {
        q
    }
}

/// `a * b / c`, rounded to the nearest whole number, no less than one.
pub fn mul_div_round(a: u32, b: u32, c: u32) -> (r: u32)
    ensures
        r == rounded(a as nat, b as nat, c as nat),
        r >= 1,
{
    if c == 0 {
        return if a < 1 {
            1
        } else {
            a
        };
    }
    proof {
        assert(0 <= a * b <= 0xffff_ffff * 0xffff_ffff) by (nonlinear_arith)
            requires
                0 <= a <= 0xffff_ffff,
                0 <= b <= 0xffff_ffff,
        ;
    }
    let product: u128 = (a as u128) * (b as u128);
    let wide: u128 = c as u128;
    let q: u128 = (product + wide / 2) / wide;
    if q < 1 {
        1
    } else if q > u32::MAX as u128 {
        u32::MAX
    } else {
        q as u32
    }
}

/// A size that fits, with the same proportions as near as can be; never larger.
pub open spec fn shrunk_to_fit(w: nat, h: nat, max_w: nat, max_h: nat) -> (nat, nat) {
    if w <= max_w && h <= max_h {
        (w, h)
    } else if w * max_h >= max_w * h {
        (max_w, rounded(h, max_w, w))
    } else {
        (rounded(w, max_h, h), max_h)
    }
}

/// A size whose shorter side is long enough, with the same proportions as near as can be.
pub open spec fn grown_to_min(w: nat, h: nat, min: nat) -> (nat, nat) {
    let short = if w <= h {
        w
    } else {
        h
    };
    if short == 0 || short >= min {
        (w, h)
    } else if w <= h {
        (min, rounded(h, min, w))
    } else {
        (rounded(w, min, h), min)
    }
}

/// The size that a picture is brought to: it fits, unless a side would be too short.
pub open spec fn fitted(w: nat, h: nat, max_w: nat, max_h: nat, min: nat) -> (nat, nat) {
    let s = shrunk_to_fit(w, h, max_w, max_h);
    grown_to_min(s.0, s.1, min)
}

/// A size that fits.
pub fn scale_to_fit(width: u32, height: u32, max_width: u32, max_height: u32) -> (r: (u32, u32))
    ensures
        (r.0 as nat, r.1 as nat) == shrunk_to_fit(
            width as nat,
            height as nat,
            max_width as nat,
            max_height as nat,
        ),
{
    if width <= max_width && height <= max_height {
        return (width, height);
    }
    proof {
        assert(0 <= width * max_height <= 0xffff_ffff * 0xffff_ffff) by (nonlinear_arith)
            requires
                0 <= width <= 0xffff_ffff,
                0 <= max_height <= 0xffff_ffff,
        ;
        assert(0 <= max_width * height <= 0xffff_ffff * 0xffff_ffff) by (nonlinear_arith)
            requires
                0 <= max_width <= 0xffff_ffff,
                0 <= height <= 0xffff_ffff,
        ;
    }
    let across: u128 = (width as u128) * (max_height as u128);
    let down: u128 = (max_width as u128) * (height as u128);
    if across >= down {
        (max_width, mul_div_round(height, max_width, width))
    } else {
        (mul_div_round(width, max_height, height), max_height)
    }
}

/// A size whose shorter side is long enough.
pub fn scale_up_to_min(width: u32, height: u32, min_dimension: u32) -> (r: (u32, u32))
    ensures
        (r.0 as nat, r.1 as nat) == grown_to_min(width as nat, height as nat, min_dimension as nat),
{
    let short: u32 = if width <= height {
        width
    } else {
        height
    };
    if short == 0 || short >= min_dimension {
        return (width, height);
    }
    if width <= height {
        (min_dimension, mul_div_round(height, min_dimension, width))
    } else {
        (mul_div_round(width, min_dimension, height), min_dimension)
    }
}

/// The size that a picture is brought to.
pub fn fit_dimensions(
    width: u32,
    height: u32,
    max_width: u32,
    max_height: u32,
    min_dimension: u32,
) -> (r: (u32, u32))
    ensures
        (r.0 as nat, r.1 as nat) == fitted(
            width as nat,
            height as nat,
            max_width as nat,
            max_height as nat,
            min_dimension as nat,
        ),
{
    let (w, h) = scale_to_fit(width, height, max_width, max_height);
    scale_up_to_min(w, h, min_dimension)
}

/// The length that no side falls below: what is asked for, as far as it fits.
pub open spec fn floor_of(o: ResizeOptions) -> nat {
    let side = if o.max_width <= o.max_height {
        o.max_width
    } else {
        o.max_height
    };
    if o.min_dimension <= side {
        o.min_dimension as nat
    } else {
        side as nat
    }
}

/// The length that no side falls below.
fn floor(o: &ResizeOptions) -> (r: u32)
    ensures
        r == floor_of(*o),
{
    let side: u32 = if o.max_width <= o.max_height {
        o.max_width
    } else {
        o.max_height
    };
    if o.min_dimension <= side {
        o.min_dimension
    } else {
        side
    }
}

// Decoders and encoders

/// A picture in memory.
#[verifier::external_type_specification]
#[verifier::external_body]
pub struct ExDynamicImage(image::DynamicImage);

/// All that a picture holds: its size, the kind of its pixels and the pixels, as bytes.
pub uninterp spec fn pixels(picture: image::DynamicImage) -> Seq<u8>;

/// How many pixels a row of a picture has.
pub uninterp spec fn row_len(picture: image::DynamicImage) -> u32;

/// How many rows a picture has.
pub uninterp spec fn row_count(picture: image::DynamicImage) -> u32;

/// The format that `guess_format` tells.
pub uninterp spec fn guessed(input: Seq<u8>) -> Option<Format>;

/// The size that `ImageReader::into_dimensions` tells, or what it says where it fails.
pub uninterp spec fn header_size(input: Seq<u8>, mime: ImageMime) -> Result<(u32, u32), Seq<char>>;

/// The picture that `ImageReader::decode` gives, or what it says where it fails. The last two are how
/// long a side may be and how many bytes may be used.
pub uninterp spec fn decoded(input: Seq<u8>, mime: ImageMime, side: u32, room: u64) -> Result<Seq<u8>, Seq<char>>;

/// The picture that `DynamicImage::resize_exact` gives with the filter `Triangle`.
pub uninterp spec fn resized(picture: Seq<u8>, width: u32, height: u32) -> Seq<u8>;

/// Whether `scaled` is a picture that `DynamicImage::resize_exact` gives of `picture` in this size with
/// the filter `Lanczos3`, on whatever machine.
pub uninterp spec fn is_scaled(picture: Seq<u8>, width: u32, height: u32, scaled: Seq<u8>) -> bool;

/// The file that `PngEncoder` writes, or what is said where that fails.
pub uninterp spec fn png_file(picture: Seq<u8>) -> Result<Seq<u8>, Seq<char>>;

/// The file that `JpegEncoder` writes, or what is said where that fails.
pub uninterp spec fn jpeg_file(picture: Seq<u8>, quality: u8) -> Result<Seq<u8>, Seq<char>>;

/// The file that `WebPEncoder` writes, or what is said where that fails.
pub uninterp spec fn webp_file(picture: Seq<u8>) -> Result<Seq<u8>, Seq<char>>;

/// A file, or what is said where there is none.
pub type Encoded = Result<Vec<u8>, String>;

/// Whether a result is the one that a name gives.
pub open spec fn gives(r: Encoded, want: Result<Seq<u8>, Seq<char>>) -> bool {
    match r {
        Ok(b) => want == Ok::<Seq<u8>, Seq<char>>(b@),
        Err(e) => want == Err::<Seq<u8>, Seq<char>>(e@),
    }
}

/// `image::guess_format`: the format that the first bytes tell, if they tell one.
#[verifier::external_body]
fn guess(input: &[u8]) -> (r: Option<Format>)
    ensures
        r == guessed(input@),
{
    match image::guess_format(input) {
        Ok(image::ImageFormat::Png) => Some(Format::Png),
        Ok(image::ImageFormat::Jpeg) => Some(Format::Jpeg),
        Ok(image::ImageFormat::WebP) => Some(Format::Webp),
        Ok(image::ImageFormat::Gif) => Some(Format::Gif),
        Ok(_) => Some(Format::Other),
        Err(_) => None,
    }
}

/// `ImageReader::into_dimensions`: the size that the file's header tells. It is a function of the
/// file and the format.
#[verifier::external_body]
fn read_size(input: &[u8], mime: ImageMime) -> (r: Result<(u32, u32), String>)
    ensures
        match r {
            Ok(size) => header_size(input@, mime) == Ok::<(u32, u32), Seq<char>>(size),
            Err(e) => header_size(input@, mime) == Err::<(u32, u32), Seq<char>>(e@),
        },
{
    let format = match mime {
        ImageMime::Png => image::ImageFormat::Png,
        ImageMime::Jpeg => image::ImageFormat::Jpeg,
        ImageMime::Webp => image::ImageFormat::WebP,
        ImageMime::Gif => image::ImageFormat::Gif,
    };
    let reader = image::ImageReader::with_format(std::io::Cursor::new(input), format);
    reader.into_dimensions().map_err(|e| e.to_string())
}

/// `ImageReader::decode`, with limits: the picture in the file. It is a function of the file, the
/// format and the limits, and its size is the one that the header tells, which comes from the same
/// decoder.
#[verifier::external_body]
fn decode(input: &[u8], mime: ImageMime, side: u32, room: u64) -> (r: Result<image::DynamicImage, String>)
    ensures
        match r {
            Ok(p) => {
                &&& decoded(input@, mime, side, room) == Ok::<Seq<u8>, Seq<char>>(pixels(p))
                &&& header_size(input@, mime) matches Ok(size) ==> row_len(p) == size.0 && row_count(
                    p,
                ) == size.1
            },
            Err(e) => decoded(input@, mime, side, room) == Err::<Seq<u8>, Seq<char>>(e@),
        },
{
    let format = match mime {
        ImageMime::Png => image::ImageFormat::Png,
        ImageMime::Jpeg => image::ImageFormat::Jpeg,
        ImageMime::Webp => image::ImageFormat::WebP,
        ImageMime::Gif => image::ImageFormat::Gif,
    };
    let mut reader = image::ImageReader::with_format(std::io::Cursor::new(input), format);
    let mut limits = image::Limits::default();
    limits.max_image_width = Some(side);
    limits.max_image_height = Some(side);
    limits.max_alloc = Some(room);
    reader.limits(limits);
    reader.decode().map_err(|e| e.to_string())
}

/// Whether a picture of this size can be held in memory, at sixteen bytes for each pixel, which is
/// the most that one takes.
pub open spec fn is_holdable(width: u32, height: u32) -> bool {
    width * height * 16 <= isize::MAX
}

/// How long a side may be that a picture is scaled to. Positions are counted in `f32`, whose error,
/// in steps from one new pixel to the next, grows with the new side. Up to here it stays below a half,
/// so that each new pixel has an old one within the reach of either filter; much further on there
/// would be none, and no weighted mean to take.
pub const MAX_SCALED_SIDE: u32 = 1_048_576;

/// Whether a picture can be scaled to a size.
pub open spec fn is_scalable(width: u32, height: u32) -> bool {
    width <= MAX_SCALED_SIDE && height <= MAX_SCALED_SIDE
}

/// `DynamicImage::resize_exact`: the picture in another size, with the filter `Lanczos3` where it is
/// to be fine and else with `Triangle`. On the way it makes a picture with rows of the old length
/// and as many of them as the new height: that one and the result have to be holdable. It panics
/// where a weighted mean has no weights, which does not happen where the new sides are at most
/// [`MAX_SCALED_SIDE`] and the old ones are no longer than a file's may be. With
/// `Triangle` the result is a function of the picture and the size. The weights of `Lanczos3` come
/// from `f32::sin`, whose last digits are not the same on every machine: of those pixels it is said
/// which picture and size they are made from.
#[verifier::external_body]
fn resize(picture: &image::DynamicImage, width: u32, height: u32, fine: bool) -> (r: image::DynamicImage)
    requires
        width > 0,
        height > 0,
        is_holdable(width, height),
        is_holdable(row_len(*picture), height),
        is_scalable(width, height),
        row_len(*picture) <= MAX_DECODE_SIDE,
        row_count(*picture) <= MAX_DECODE_SIDE,
    ensures
        !fine ==> pixels(r) == resized(pixels(*picture), width, height),
        fine ==> is_scaled(pixels(*picture), width, height, pixels(r)),
        row_len(r) == width,
        row_count(r) == height,
{
    let filter = match fine {
        true => image::imageops::FilterType::Lanczos3,
        false => image::imageops::FilterType::Triangle,
    };
    picture.resize_exact(width, height, filter)
}

/// `DynamicImage::write_with_encoder` with a `PngEncoder`: the picture as a file. It is a function of
/// the picture.
#[verifier::external_body]
fn encode_png(picture: &image::DynamicImage) -> (r: Result<Vec<u8>, String>)
    ensures
        gives(r, png_file(pixels(*picture))),
{
    let mut out = std::io::Cursor::new(Vec::new());
    match picture.write_with_encoder(image::codecs::png::PngEncoder::new(&mut out)) {
        Ok(()) => Ok(out.into_inner()),
        Err(e) => Err(e.to_string()),
    }
}

/// `DynamicImage::write_with_encoder` with a `JpegEncoder`: the picture as a file. It is a function
/// of the picture and the quality.
#[verifier::external_body]
fn encode_jpeg(picture: &image::DynamicImage, quality: u8) -> (r: Result<Vec<u8>, String>)
    ensures
        gives(r, jpeg_file(pixels(*picture), quality)),
{
    let mut out = std::io::Cursor::new(Vec::new());
    let encoder = image::codecs::jpeg::JpegEncoder::new_with_quality(&mut out, quality);
    match picture.write_with_encoder(encoder) {
        Ok(()) => Ok(out.into_inner()),
        Err(e) => Err(e.to_string()),
    }
}

/// `DynamicImage::write_with_encoder` with a lossless `WebPEncoder`: the picture as a file. It is a
/// function of the picture.
#[verifier::external_body]
fn encode_webp(picture: &image::DynamicImage) -> (r: Result<Vec<u8>, String>)
    ensures
        gives(r, webp_file(pixels(*picture))),
{
    let mut out = std::io::Cursor::new(Vec::new());
    match picture.write_with_encoder(image::codecs::webp::WebPEncoder::new_lossless(&mut out)) {
        Ok(()) => Ok(out.into_inner()),
        Err(e) => Err(e.to_string()),
    }
}

// The header

/// What is told of a file, where it is known which format its first bytes tell and which size its
/// header tells for each kind.
pub open spec fn probed(
    bytes: nat,
    format: Option<Format>,
    size: spec_fn(ImageMime) -> Result<(u32, u32), Seq<char>>,
) -> Result<(u32, u32, ImageMime), ErrorView> {
    if bytes > MAX_INPUT_BYTES {
        Err(ErrorView::TooLarge { bytes: bytes as usize, limit: MAX_INPUT_BYTES })
    } else {
        match format {
            None => Err(ErrorView::UnknownFormat),
            Some(f) => match mime_of(f) {
                None => Err(ErrorView::UnknownFormat),
                Some(mime) => match size(mime) {
                    Ok(s) => Ok((s.0, s.1, mime)),
                    Err(e) => Err(ErrorView::Decode { reason: e }),
                },
            },
        }
    }
}

/// What is told of a file.
pub open spec fn probe_of(input: Seq<u8>) -> Result<(u32, u32, ImageMime), ErrorView> {
    probed(input.len(), guessed(input), |mime: ImageMime| header_size(input, mime))
}

/// The size and the kind of a picture, by its header alone.
pub fn probe_dimensions(input: &[u8]) -> (r: Result<(u32, u32, ImageMime), ImageError>)
    ensures
        match r {
            Ok(x) => probe_of(input@) == Ok::<(u32, u32, ImageMime), ErrorView>(x),
            Err(e) => probe_of(input@) == Err::<(u32, u32, ImageMime), ErrorView>(e@),
        },
{
    if input.len() > MAX_INPUT_BYTES {
        return Err(ImageError::TooLarge { bytes: input.len(), limit: MAX_INPUT_BYTES });
    }
    let format = match guess(input) {
        Some(f) => f,
        None => {
            return Err(ImageError::UnknownFormat);
        },
    };
    let mime = match ImageMime::from_format(format) {
        Some(m) => m,
        None => {
            return Err(ImageError::UnknownFormat);
        },
    };
    match read_size(input, mime) {
        Ok(size) => Ok((size.0, size.1, mime)),
        Err(reason) => Err(ImageError::Decode { reason }),
    }
}

// Encodings

/// An encoding that was tried.
pub struct Candidate {
    pub mime: ImageMime,
    pub result: Result<Vec<u8>, String>,
}

/// What a [`Candidate`] is.
#[verifier::ext_equal]
pub struct CandidateView {
    pub mime: ImageMime,
    pub result: Result<Seq<u8>, Seq<char>>,
}

impl View for Candidate {
    type V = CandidateView;

    open spec fn view(&self) -> CandidateView {
        CandidateView {
            mime: self.mime,
            result: match self.result {
                Ok(b) => Ok(b@),
                Err(e) => Err(e@),
            },
        }
    }
}

/// What candidates are.
pub open spec fn candidates_view(l: Seq<Candidate>) -> Seq<CandidateView> {
    Seq::new(l.len(), |i: int| l[i]@)
}

/// Which of the first `n` encodings is the smallest: the first of those of the same size.
pub open spec fn smallest(l: Seq<CandidateView>, n: int) -> Option<int>
    decreases n,
{
    if n <= 0 || n > l.len() {
        None
    } else {
        match (smallest(l, n - 1), l[n - 1].result) {
            (None, Ok(_)) => Some(n - 1),
            (Some(k), Ok(b)) => if b.len() < l[k].result->Ok_0.len() {
                Some(n - 1)
            } else {
                Some(k)
            },
            (best, Err(_)) => best,
        }
    }
}

/// Which of the encodings from the `i`th on failed first.
pub open spec fn first_failed(l: Seq<CandidateView>, i: int) -> Option<int>
    decreases l.len() - i,
{
    if i < 0 || i >= l.len() {
        None
    } else if l[i].result is Err {
        Some(i)
    } else {
        first_failed(l, i + 1)
    }
}

/// The encoding that is chosen, or why there is none.
pub open spec fn chosen(l: Seq<CandidateView>) -> Result<(Seq<u8>, ImageMime), ErrorView> {
    match smallest(l, l.len() as int) {
        Some(k) => Ok((l[k].result->Ok_0, l[k].mime)),
        None => match first_failed(l, 0) {
            Some(k) => Err(ErrorView::Encode { mime: l[k].mime, reason: l[k].result->Err_0 }),
            None => Err(ErrorView::UnknownFormat),
        },
    }
}

proof fn lemma_smallest(l: Seq<CandidateView>, n: int)
    requires
        0 <= n <= l.len(),
    ensures
        match smallest(l, n) {
            Some(k) => 0 <= k < n && l[k].result is Ok,
            None => forall|i: int| 0 <= i < n ==> (#[trigger] l[i]).result is Err,
        },
    decreases n,
{
    if n > 0 {
        lemma_smallest(l, n - 1);
    }
}

proof fn lemma_first_failed(l: Seq<CandidateView>, i: int)
    requires
        0 <= i < l.len(),
        l[i].result is Err,
        forall|j: int| 0 <= j < i ==> (#[trigger] l[j]).result is Ok,
    ensures
        first_failed(l, 0) == Some(i),
{
    assert forall|j: int| 0 <= j <= i implies first_failed(l, 0) == #[trigger] first_failed(l, j) by {
        lemma_failed_from(l, i, j);
    }
    assert(first_failed(l, 0) == first_failed(l, i));
}

proof fn lemma_failed_from(l: Seq<CandidateView>, i: int, j: int)
    requires
        0 <= j <= i < l.len(),
        forall|k: int| 0 <= k < i ==> (#[trigger] l[k]).result is Ok,
    ensures
        first_failed(l, 0) == first_failed(l, j),
    decreases j,
{
    if j > 0 {
        lemma_failed_from(l, i, j - 1);
        assert(l[j - 1].result is Ok);
    }
}

/// The smallest of some encodings; where all failed, why the first one did.
pub fn pick_smallest(candidates: Vec<Candidate>) -> (r: Result<(Vec<u8>, ImageMime), ImageError>)
    ensures
        match r {
            Ok(x) => chosen(candidates_view(candidates@)) == Ok::<(Seq<u8>, ImageMime), ErrorView>(
                (x.0@, x.1),
            ),
            Err(e) => chosen(candidates_view(candidates@)) == Err::<
                (Seq<u8>, ImageMime),
                ErrorView,
            >(e@),
        },
{
    let ghost all = candidates_view(candidates@);
    let n: usize = candidates.len();
    let mut best: Option<usize> = None;
    let mut best_len: usize = 0;
    let mut failed: Option<usize> = None;
    let mut i: usize = 0;
    while i < n
        invariant
            i <= n,
            n == candidates@.len(),
            all == candidates_view(candidates@),
            match best {
                Some(k) => k < i && smallest(all, i as int) == Some(k as int) && (
                all[k as int].result matches Ok(b) && b.len() == best_len),
                None => smallest(all, i as int) is None,
            },
            match failed {
                Some(k) => k < i && all[k as int].result is Err && forall|j: int|
                    0 <= j < k ==> (#[trigger] all[j]).result is Ok,
                None => forall|j: int| 0 <= j < i ==> (#[trigger] all[j]).result is Ok,
            },
        decreases n - i,
    {
        assert(all[i as int] == candidates@[i as int]@);
        match &candidates[i].result {
            Ok(bytes) => {
                let better = match best {
                    None => true,
                    Some(_) => bytes.len() < best_len,
                };
                if better {
                    best = Some(i);
                    best_len = bytes.len();
                }
            },
            Err(_) => {
                if failed.is_none() {
                    failed = Some(i);
                }
            },
        }
        i += 1;
    }
    let mut list = candidates;
    if let Some(k) = best {
        let c = list.swap_remove(k);
        assert(c@ == all[k as int]);
        return match c.result {
            Ok(bytes) => Ok((bytes, c.mime)),
            Err(_) => Err(ImageError::UnknownFormat),
        };
    }
    proof {
        lemma_smallest(all, n as int);
    }
    if let Some(k) = failed {
        proof {
            lemma_first_failed(all, k as int);
        }
        let c = list.swap_remove(k);
        assert(c@ == all[k as int]);
        return match c.result {
            Ok(_) => Err(ImageError::UnknownFormat),
            Err(reason) => Err(ImageError::Encode { mime: c.mime, reason }),
        };
    }
    assert(n == 0) by {
        if n > 0 {
            assert(all[0].result is Ok && all[0].result is Err);
        }
    }
    Err(ImageError::UnknownFormat)
}

/// The encodings of a picture that are tried.
pub open spec fn tried(picture: Seq<u8>, quality: u8, allow_webp: bool) -> Seq<CandidateView> {
    let both = seq![
        CandidateView { mime: ImageMime::Png, result: png_file(picture) },
        CandidateView { mime: ImageMime::Jpeg, result: jpeg_file(picture, quality) },
    ];
    if allow_webp {
        both.push(CandidateView { mime: ImageMime::Webp, result: webp_file(picture) })
    } else {
        both
    }
}

/// The best encoding of a picture.
pub open spec fn best_of(picture: Seq<u8>, quality: u8, allow_webp: bool) -> Result<
    (Seq<u8>, ImageMime),
    ErrorView,
> {
    chosen(tried(picture, quality, allow_webp))
}

/// `rayon::join`: calls both functions, perhaps on two threads, and gives what each of them gave. It
/// panics where one of them does, or where the machine gives it no threads.
pub assume_specification<A, B, RA, RB>[ rayon::join::<A, B, RA, RB> ](oper_a: A, oper_b: B) -> (r: (RA, RB))
    where
        A: FnOnce() -> RA + Send,
        B: FnOnce() -> RB + Send,
        RA: Send,
        RB: Send,
    requires
        call_requires(oper_a, ()),
        call_requires(oper_b, ()),
    ensures
        call_ensures(oper_a, (), r.0),
        call_ensures(oper_b, (), r.1),
;

/// The best encoding of a picture.
fn encode_best(picture: &image::DynamicImage, quality: u8, allow_webp: bool) -> (r: Result<
    (Vec<u8>, ImageMime),
    ImageError,
>)
    ensures
        match r {
            Ok(x) => best_of(pixels(*picture), quality, allow_webp) == Ok::<
                (Seq<u8>, ImageMime),
                ErrorView,
            >((x.0@, x.1)),
            Err(e) => best_of(pixels(*picture), quality, allow_webp) == Err::<
                (Seq<u8>, ImageMime),
                ErrorView,
            >(e@),
        },
{
    let as_png = || -> (r: Encoded)
        ensures
            gives(r, png_file(pixels(*picture))),
        { encode_png(picture) };
    let as_jpeg = || -> (r: Encoded)
        ensures
            gives(r, jpeg_file(pixels(*picture), quality)),
        { encode_jpeg(picture, quality) };
    let (png, jpeg) = rayon::join(as_png, as_jpeg);
    let mut list: Vec<Candidate> = Vec::new();
    list.push(Candidate { mime: ImageMime::Png, result: png });
    list.push(Candidate { mime: ImageMime::Jpeg, result: jpeg });
    if allow_webp {
        list.push(Candidate { mime: ImageMime::Webp, result: encode_webp(picture) });
    }
    assert(candidates_view(list@) =~= tried(pixels(*picture), quality, allow_webp));
    pick_smallest(list)
}

// The budget

/// The best file so far.
pub struct Best {
    pub bytes: Vec<u8>,
    pub mime: ImageMime,
    pub width: u32,
    pub height: u32,
}

/// What a [`Best`] is.
#[verifier::ext_equal]
pub struct BestView {
    pub bytes: Seq<u8>,
    pub mime: ImageMime,
    pub width: u32,
    pub height: u32,
}

impl View for Best {
    type V = BestView;

    open spec fn view(&self) -> BestView {
        BestView {
            bytes: self.bytes@,
            mime: self.mime,
            width: self.width,
            height: self.height,
        }
    }
}

/// The best file after one of lower quality was tried, and whether it is small enough.
pub open spec fn after_quality(
    best: BestView,
    result: Result<Seq<u8>, Seq<char>>,
    max_bytes: nat,
) -> (BestView, bool) {
    match result {
        Ok(b) if b.len() < best.bytes.len() => (
            BestView { bytes: b, mime: ImageMime::Jpeg, ..best },
            b.len() <= max_bytes,
        ),
        _ => (best, false),
    }
}

/// The best file after one of another size was tried, and whether that one is small enough.
pub open spec fn after_size(
    best: BestView,
    result: Result<(Seq<u8>, ImageMime), ErrorView>,
    width: u32,
    height: u32,
    max_bytes: nat,
) -> (BestView, bool) {
    match result {
        Ok(x) => (
            if x.0.len() < best.bytes.len() {
                BestView { bytes: x.0, mime: x.1, width, height }
            } else {
                best
            },
            x.0.len() <= max_bytes,
        ),
        Err(_) => (best, false),
    }
}

/// Takes a file of lower quality. Says whether it is small enough.
pub fn take_quality(best: Best, result: Result<Vec<u8>, String>, max_bytes: usize) -> (r: (Best, bool))
    ensures
        (r.0@, r.1) == after_quality(
            best@,
            match result {
                Ok(b) => Ok(b@),
                Err(e) => Err(e@),
            },
            max_bytes as nat,
        ),
{
    match result {
        Ok(bytes) => {
            if bytes.len() < best.bytes.len() {
                let fits = bytes.len() <= max_bytes;
                (
                    Best { bytes, mime: ImageMime::Jpeg, width: best.width, height: best.height },
                    fits,
                )
            } else {
                (best, false)
            }
        },
        Err(_) => (best, false),
    }
}

/// Takes a file of another size. Says whether it is small enough.
pub fn take_size(
    best: Best,
    result: Result<(Vec<u8>, ImageMime), ImageError>,
    width: u32,
    height: u32,
    max_bytes: usize,
) -> (r: (Best, bool))
    ensures
        (r.0@, r.1) == after_size(
            best@,
            match result {
                Ok(x) => Ok((x.0@, x.1)),
                Err(e) => Err(e@),
            },
            width,
            height,
            max_bytes as nat,
        ),
{
    match result {
        Ok((bytes, mime)) => {
            let fits = bytes.len() <= max_bytes;
            if bytes.len() < best.bytes.len() {
                (Best { bytes, mime, width, height }, fits)
            } else {
                (best, fits)
            }
        },
        Err(_) => (best, false),
    }
}

/// The qualities that are tried, one after the other.
pub open spec fn quality_step(i: int) -> u8 {
    if i == 0 {
        70
    } else if i == 1 {
        60
    } else if i == 2 {
        50
    } else {
        40
    }
}

/// The sizes that are tried, one after the other, as a part of the first.
pub open spec fn size_step(i: int) -> (nat, nat) {
    if i == 0 {
        (3, 4)
    } else if i == 1 {
        (1, 2)
    } else if i == 2 {
        (7, 20)
    } else {
        (1, 4)
    }
}

/// A side in one of these sizes: never shorter than the floor.
pub open spec fn side_at(side: nat, i: int, floor: nat) -> nat {
    let s = rounded(side, size_step(i).0, size_step(i).1);
    if s < floor {
        floor
    } else {
        s
    }
}

/// The best file after the qualities from the `i`th on were tried, and whether one is small enough.
pub open spec fn qualities(picture: Seq<u8>, best: BestView, o: ResizeOptions, i: int) -> (
    BestView,
    bool,
)
    decreases 4 - i,
{
    if i >= 4 {
        (best, false)
    } else if quality_step(i) < o.jpeg_quality {
        let (b, fits) = after_quality(
            best,
            jpeg_file(picture, quality_step(i)),
            o.max_bytes as nat,
        );
        if fits {
            (b, true)
        } else {
            qualities(picture, b, o, i + 1)
        }
    } else {
        qualities(picture, best, o, i + 1)
    }
}

/// The best file after the sizes from the `i`th on were tried.
pub open spec fn sizes(
    picture: Seq<u8>,
    best: BestView,
    width: nat,
    height: nat,
    o: ResizeOptions,
    floor: nat,
    i: int,
) -> BestView
    decreases 4 - i,
{
    if i >= 4 {
        best
    } else {
        let w = side_at(width, i, floor);
        let h = side_at(height, i, floor);
        if w == best.width && h == best.height {
            sizes(picture, best, width, height, o, floor, i + 1)
        } else {
            let (b, fits) = after_size(
                best,
                best_of(resized(picture, w as u32, h as u32), o.jpeg_quality, o.allow_webp),
                w as u32,
                h as u32,
                o.max_bytes as nat,
            );
            if fits {
                b
            } else {
                sizes(picture, b, width, height, o, floor, i + 1)
            }
        }
    }
}

/// The file that a picture comes to: a file that is too large is tried in lower qualities, then in
/// smaller sizes, until one is small enough; else the smallest one counts.
pub open spec fn within_budget(
    picture: Seq<u8>,
    first: BestView,
    o: ResizeOptions,
    floor: nat,
) -> BestView {
    if first.bytes.len() <= o.max_bytes {
        first
    } else {
        let (b, fits) = qualities(picture, first, o, 0);
        if fits {
            b
        } else {
            sizes(picture, b, first.width as nat, first.height as nat, o, floor, 0)
        }
    }
}

/// Whether a file comes to its budget without being scaled.
pub open spec fn is_settled(picture: Seq<u8>, first: BestView, o: ResizeOptions) -> bool {
    first.bytes.len() <= o.max_bytes || qualities(picture, first, o, 0).1
}

/// The `i`th quality.
fn quality_at(i: usize) -> (r: u8)
    ensures
        r == quality_step(i as int),
{
    if i == 0 {
        70
    } else if i == 1 {
        60
    } else if i == 2 {
        50
    } else {
        40
    }
}

/// The `i`th part.
fn part_at(i: usize) -> (r: (u32, u32))
    ensures
        (r.0 as nat, r.1 as nat) == size_step(i as int),
{
    if i == 0 {
        (3, 4)
    } else if i == 1 {
        (1, 2)
    } else if i == 2 {
        (7, 20)
    } else {
        (1, 4)
    }
}

/// A side in the `i`th size.
fn scaled_side(side: u32, i: usize, floor: u32) -> (r: u32)
    requires
        floor <= side,
        side > 0,
        i < 4,
    ensures
        r == side_at(side as nat, i as int, floor as nat),
        floor <= r <= side,
        r > 0,
{
    let (num, den) = part_at(i);
    let s: u32 = mul_div_round(side, num, den);
    proof {
        lemma_side_at(side as nat, i as int, floor as nat);
    }
    if s < floor {
        floor
    } else {
        s
    }
}

/// Whether a picture can be scaled to a size.
fn scalable(width: u32, height: u32) -> (r: bool)
    ensures
        r == is_scalable(width, height),
{
    width <= MAX_SCALED_SIDE && height <= MAX_SCALED_SIDE
}

proof fn lemma_holdable(w: u32, h: u32, x: u32, y: u32)
    requires
        is_holdable(w, h),
        x <= w,
        y <= h,
    ensures
        is_holdable(x, y),
{
    assert(x * y <= w * h) by (nonlinear_arith)
        requires
            0 <= x <= w,
            0 <= y <= h,
    ;
}

/// Brings a file to the size that it should have, as far as can be. There is nothing where it would
/// have to be scaled and a side is too long for that.
fn shrink_to_budget(
    base: &image::DynamicImage,
    first: Best,
    options: &ResizeOptions,
    floor: u32,
) -> (r: Option<Best>)
    requires
        first.width > 0,
        first.height > 0,
        floor <= first.width,
        floor <= first.height,
        row_len(*base) == first.width,
        row_count(*base) == first.height,
        is_holdable(first.width, first.height),
        first.width <= MAX_DECODE_SIDE,
        first.height <= MAX_DECODE_SIDE,
    ensures
        r is Some <==> is_scalable(first.width, first.height) || is_settled(
            pixels(*base),
            first@,
            *options,
        ),
        r matches Some(b) ==> b@ == within_budget(
            pixels(*base),
            first@,
            *options,
            floor as nat,
        ),
{
    let ghost picture = pixels(*base);
    let ghost start = first@;
    let ghost want = within_budget(picture, start, *options, floor as nat);
    let width: u32 = first.width;
    let height: u32 = first.height;
    if first.bytes.len() <= options.max_bytes {
        return Some(first);
    }
    let mut best = first;
    let mut i: usize = 0;
    while i < 4
        invariant
            i <= 4,
            picture == pixels(*base),
            start == first@,
            want == within_budget(picture, start, *options, floor as nat),
            want == {
                let (b, fits) = qualities(picture, best@, *options, i as int);
                if fits {
                    b
                } else {
                    sizes(picture, b, width as nat, height as nat, *options, floor as nat, 0)
                }
            },
            qualities(picture, start, *options, 0).1 == qualities(
                picture,
                best@,
                *options,
                i as int,
            ).1,
        decreases 4 - i,
    {
        let quality: u8 = quality_at(i);
        if quality < options.jpeg_quality {
            let (b, fits) = take_quality(best, encode_jpeg(base, quality), options.max_bytes);
            best = b;
            if fits {
                return Some(best);
            }
        }
        i += 1;
    }
    if !scalable(width, height) {
        return None;
    }
    let mut k: usize = 0;
    while k < 4
        invariant
            k <= 4,
            picture == pixels(*base),
            start == first@,
            want == within_budget(picture, start, *options, floor as nat),
            row_len(*base) == width,
            row_count(*base) == height,
            is_holdable(width, height),
            is_scalable(width, height),
            width == start.width,
            height == start.height,
            0 < width,
            0 < height,
            floor <= width,
            floor <= height,
            want == sizes(
                picture,
                best@,
                width as nat,
                height as nat,
                *options,
                floor as nat,
                k as int,
            ),
        decreases 4 - k,
    {
        let w: u32 = scaled_side(width, k, floor);
        let h: u32 = scaled_side(height, k, floor);
        if w != best.width || h != best.height {
            proof {
                lemma_holdable(width, height, w, h);
                lemma_holdable(width, height, width, h);
            }
            let small = resize(base, w, h, false);
            let (b, fits) = take_size(
                best,
                encode_best(&small, options.jpeg_quality, options.allow_webp),
                w,
                h,
                options.max_bytes,
            );
            best = b;
            if fits {
                return Some(best);
            }
        }
        k += 1;
    }
    Some(best)
}

// All together

/// Whether a size and a file may go out as they are.
pub open spec fn may_pass(w: u32, h: u32, bytes: nat, o: ResizeOptions) -> bool {
    &&& w <= o.max_width
    &&& h <= o.max_height
    &&& w >= floor_of(o)
    &&& h >= floor_of(o)
    &&& bytes <= o.max_bytes / 4
}

/// The size that a picture is brought to.
pub open spec fn target_of(w: u32, h: u32, o: ResizeOptions) -> (nat, nat) {
    fitted(w as nat, h as nat, o.max_width as nat, o.max_height as nat, floor_of(o))
}

/// What a picture of the size `t` goes out as, which had the size `w` by `h` in its file.
pub open spec fn sent(picture: Seq<u8>, w: u32, h: u32, t: (nat, nat), o: ResizeOptions) -> Result<
    ProcessedView,
    ErrorView,
> {
    match best_of(picture, o.jpeg_quality, o.allow_webp) {
        Err(e) => Err(e),
        Ok(x) => {
            let first = BestView { bytes: x.0, mime: x.1, width: t.0 as u32, height: t.1 as u32 };
            let best = within_budget(picture, first, o, floor_of(o));
            Ok(
                ProcessedView {
                    bytes: best.bytes,
                    mime: best.mime,
                    width: best.width,
                    height: best.height,
                    original_width: w,
                    original_height: h,
                    reencoded: true,
                },
            )
        },
    }
}

/// What becomes of a picture that is another file; `scaled` is what it is where its size changes.
pub open spec fn redone(
    input: Seq<u8>,
    w: u32,
    h: u32,
    mime: ImageMime,
    o: ResizeOptions,
    scaled: Seq<u8>,
) -> Result<ProcessedView, ErrorView> {
    match decoded(input, mime, MAX_DECODE_SIDE, MAX_DECODE_BYTES) {
        Err(e) => Err(ErrorView::Decode { reason: e }),
        Ok(whole) => {
            let t = target_of(w, h, o);
            let picture = if t == (w as nat, h as nat) {
                whole
            } else {
                scaled
            };
            sent(picture, w, h, t, o)
        },
    }
}

/// What becomes of a picture; `scaled` is what it is where its size changes.
pub open spec fn processed(input: Seq<u8>, o: ResizeOptions, scaled: Seq<u8>) -> Result<
    ProcessedView,
    ErrorView,
> {
    match probe_of(input) {
        Err(e) => Err(e),
        Ok((w, h, mime)) => if w == 0 || h == 0 {
            Err(ErrorView::DegenerateDimensions { width: w, height: h })
        } else if w * h > MAX_PIXELS {
            Err(ErrorView::TooManyPixels { width: w, height: h, limit: MAX_PIXELS })
        } else if may_pass(w, h, input.len(), o) {
            Ok(
                ProcessedView {
                    bytes: input,
                    mime,
                    width: w,
                    height: h,
                    original_width: w,
                    original_height: h,
                    reencoded: false,
                },
            )
        } else {
            redone(input, w, h, mime, o, scaled)
        },
    }
}

/// Whether a result says what is wanted.
pub open spec fn says(
    r: Result<ProcessedImage, ImageError>,
    want: Result<ProcessedView, ErrorView>,
) -> bool {
    match r {
        Ok(p) => want == Ok::<ProcessedView, ErrorView>(p@),
        Err(e) => want == Err::<ProcessedView, ErrorView>(e@),
    }
}

/// Whether `scaled` is what the picture in a file is where its size changes: scaled from that picture
/// to the size that it is brought to.
pub open spec fn is_source_scaled(input: Seq<u8>, o: ResizeOptions, scaled: Seq<u8>) -> bool {
    probe_of(input) matches Ok((w, h, mime)) ==> decoded(
        input,
        mime,
        MAX_DECODE_SIDE,
        MAX_DECODE_BYTES,
    ) matches Ok(whole) ==> {
        let t = target_of(w, h, o);
        t == (w as nat, h as nat) || is_scaled(whole, t.0 as u32, t.1 as u32, scaled)
    }
}

/// Whether a file is decoded to become another one.
pub open spec fn is_redone(input: Seq<u8>, o: ResizeOptions) -> bool {
    probe_of(input) matches Ok((w, h, _)) && w != 0 && h != 0 && w * h <= MAX_PIXELS && !may_pass(
        w,
        h,
        input.len(),
        o,
    )
}

/// Whether a result is what becomes of a picture. Where its size changes, that is what becomes of
/// one that is scaled from it.
pub open spec fn is_outcome(
    r: Result<ProcessedImage, ImageError>,
    input: Seq<u8>,
    o: ResizeOptions,
) -> bool {
    exists|scaled: Seq<u8>|
        says(r, #[trigger] processed(input, o, scaled)) && (is_redone(input, o)
            ==> is_source_scaled(input, o, scaled))
}

/// Whether what a picture of the size `t` goes out as can be had: it can be scaled, or need not be.
pub open spec fn can_be_sent(picture: Seq<u8>, t: (nat, nat), o: ResizeOptions) -> bool {
    is_scalable(t.0 as u32, t.1 as u32) || match best_of(picture, o.jpeg_quality, o.allow_webp) {
        Err(_) => true,
        Ok(x) => is_settled(
            picture,
            (BestView { bytes: x.0, mime: x.1, width: t.0 as u32, height: t.1 as u32 }),
            o,
        ),
    }
}

/// Whether a picture can be brought to the size that it should have, and sent. Where that is another
/// size, memory has room for it and no side of it is too long; where it is not, the picture can be
/// scaled to meet the budget, or need not be.
pub open spec fn has_room(picture: Seq<u8>, w: u32, h: u32, o: ResizeOptions) -> bool {
    let t = target_of(w, h, o);
    if t == (w as nat, h as nat) {
        can_be_sent(picture, t, o)
    } else {
        &&& is_holdable(t.0 as u32, t.1 as u32)
        &&& is_holdable(w, t.1 as u32)
        &&& is_scalable(t.0 as u32, t.1 as u32)
    }
}

/// Whether the picture in a file can be brought to the size that it should have, where it becomes
/// another file.
pub open spec fn room_for(input: Seq<u8>, o: ResizeOptions) -> bool {
    is_redone(input, o) ==> (probe_of(input) matches Ok((w, h, mime)) && match decoded(
        input,
        mime,
        MAX_DECODE_SIDE,
        MAX_DECODE_BYTES,
    ) {
        Err(_) => true,
        Ok(whole) => has_room(whole, w, h, o),
    })
}

proof fn lemma_rounded(a: nat, b: nat, c: nat)
    ensures
        1 <= rounded(a, b, c) <= u32::MAX,
        c > 0 && b >= c ==> rounded(a, b, c) >= a || a > u32::MAX,
{
    if c > 0 && b >= c {
        assert((a * b + c / 2) / c >= a) by (nonlinear_arith)
            requires
                c > 0,
                b >= c,
                a >= 0,
        ;
    }
}

/// Neither side of a size that a picture is brought to is shorter than the floor.
pub proof fn lemma_floor_holds(w: u32, h: u32, o: ResizeOptions)
    requires
        w > 0,
        h > 0,
        o.max_width > 0,
        o.max_height > 0,
    ensures
        ({
            let t = target_of(w, h, o);
            &&& floor_of(o) <= t.0 <= u32::MAX
            &&& floor_of(o) <= t.1 <= u32::MAX
            &&& t.0 > 0
            &&& t.1 > 0
        }),
{
    let s = shrunk_to_fit(w as nat, h as nat, o.max_width as nat, o.max_height as nat);
    let min = floor_of(o);
    lemma_rounded(h as nat, o.max_width as nat, w as nat);
    lemma_rounded(w as nat, o.max_height as nat, h as nat);
    assert(1 <= s.0 <= u32::MAX && 1 <= s.1 <= u32::MAX);
    lemma_rounded(s.1, min, s.0);
    lemma_rounded(s.0, min, s.1);
    if s.0 <= s.1 && s.0 < min {
        assert((s.1 * min + s.0 / 2) / s.0 >= min) by (nonlinear_arith)
            requires
                1 <= s.0 <= s.1,
                min >= 0,
        ;
    } else if s.1 < s.0 && s.1 < min {
        assert((s.0 * min + s.1 / 2) / s.1 >= min) by (nonlinear_arith)
            requires
                1 <= s.1 <= s.0,
                min >= 0,
        ;
    }
}

/// The file that a picture goes out as: the smallest encoding, within the budget if that can be. It
/// had the size `w` by `h` in its own file, and has the size `width` by `height`. There is nothing
/// where it would have to be scaled for the budget and a side is too long for that.
pub fn encode_image(
    picture: &image::DynamicImage,
    w: u32,
    h: u32,
    width: u32,
    height: u32,
    options: &ResizeOptions,
) -> (r: Option<Result<ProcessedImage, ImageError>>)
    requires
        width > 0,
        height > 0,
        floor_of(*options) <= width,
        floor_of(*options) <= height,
        row_len(*picture) == width,
        row_count(*picture) == height,
        is_holdable(width, height),
        width <= MAX_DECODE_SIDE,
        height <= MAX_DECODE_SIDE,
    ensures
        r is Some <==> can_be_sent(pixels(*picture), (width as nat, height as nat), *options),
        r matches Some(x) ==> says(
            x,
            sent(pixels(*picture), w, h, (width as nat, height as nat), *options),
        ),
{
    match encode_best(picture, options.jpeg_quality, options.allow_webp) {
        Err(e) => Some(Err(e)),
        Ok((bytes, kind)) => {
            let first = Best { bytes, mime: kind, width, height };
            match shrink_to_budget(picture, first, options, floor(options)) {
                None => None,
                Some(best) => Some(
                    Ok(
                        ProcessedImage {
                            bytes: best.bytes,
                            mime: best.mime,
                            width: best.width,
                            height: best.height,
                            original_width: w,
                            original_height: h,
                            reencoded: true,
                        },
                    ),
                ),
            }
        },
    }
}

/// Whether a picture of this size can be held in memory.
fn holdable(width: u32, height: u32) -> (r: bool)
    ensures
        r == is_holdable(width, height),
{
    proof {
        assert(0 <= width * height <= 0xffff_ffff * 0xffff_ffff) by (nonlinear_arith)
            requires
                0 <= width <= 0xffff_ffff,
                0 <= height <= 0xffff_ffff,
        ;
    }
    (width as u128) * (height as u128) * 16 <= isize::MAX as u128
}

/// Brings a picture to a size that is accepted, in the smallest encoding. One that is well within
/// the limits goes out as it is. There is nothing where memory has no room for the new size, or where
/// a side of it is too long to be scaled to.
pub fn try_process_image(input: &[u8], options: &ResizeOptions) -> (r: Option<
    Result<ProcessedImage, ImageError>,
>)
    requires
        options.max_width > 0,
        options.max_height > 0,
    ensures
        match r {
            None => !room_for(input@, *options),
            Some(x) => room_for(input@, *options) && is_outcome(x, input@, *options),
        },
{
    let ghost any = processed(input@, *options, input@);
    let (w, h, mime) = match probe_dimensions(input) {
        Ok(x) => x,
        Err(e) => {
            return Some(Err(e));
        },
    };
    if w == 0 || h == 0 {
        return Some(Err(ImageError::DegenerateDimensions { width: w, height: h }));
    }
    proof {
        assert(0 <= w * h <= 0xffff_ffff * 0xffff_ffff) by (nonlinear_arith)
            requires
                0 <= w <= 0xffff_ffff,
                0 <= h <= 0xffff_ffff,
        ;
        assert(w <= w * h && h <= w * h) by (nonlinear_arith)
            requires
                1 <= w,
                1 <= h,
        ;
    }
    if (w as u64) * (h as u64) > MAX_PIXELS {
        return Some(Err(ImageError::TooManyPixels { width: w, height: h, limit: MAX_PIXELS }));
    }
    let min: u32 = floor(options);
    let in_bounds = w <= options.max_width && h <= options.max_height && w >= min && h >= min;
    if in_bounds && input.len() <= options.max_bytes / 4 {
        return Some(
            Ok(
                ProcessedImage {
                    bytes: vstd::slice::slice_to_vec(input),
                    mime,
                    width: w,
                    height: h,
                    original_width: w,
                    original_height: h,
                    reencoded: false,
                },
            ),
        );
    }
    let whole = match decode(input, mime, MAX_DECODE_SIDE, MAX_DECODE_BYTES) {
        Ok(p) => p,
        Err(reason) => {
            return Some(Err(ImageError::Decode { reason }));
        },
    };
    let (tw, th) = fit_dimensions(w, h, options.max_width, options.max_height, min);
    proof {
        lemma_floor_holds(w, h, *options);
    }
    let picture = if tw == w && th == h {
        whole
    } else {
        if !(holdable(tw, th) && holdable(w, th) && scalable(tw, th)) {
            return None;
        }
        resize(&whole, tw, th, true)
    };
    let r = encode_image(&picture, w, h, tw, th, options);
    proof {
        if r is Some {
            assert(is_source_scaled(input@, *options, pixels(picture)));
            assert(says(r->0, processed(input@, *options, pixels(picture))));
        }
    }
    r
}

/// The same for a picture that can be brought to the size that it should have.
pub fn process_image(input: &[u8], options: &ResizeOptions) -> (r: Result<ProcessedImage, ImageError>)
    requires
        options.max_width > 0,
        options.max_height > 0,
        room_for(input@, *options),
    ensures
        is_outcome(r, input@, *options),
{
    match try_process_image(input, options) {
        Some(r) => r,
        None => vstd::pervasive::unreached(),
    }
}

// Laws

/// A picture that is within the limits keeps its size.
pub proof fn lemma_size_within_limits_stays(w: u32, h: u32, o: ResizeOptions)
    requires
        w <= o.max_width,
        h <= o.max_height,
        w >= floor_of(o),
        h >= floor_of(o),
    ensures
        target_of(w, h, o) == (w as nat, h as nat),
{
}

/// A size that is brought to the limits fits, unless a side would be too short.
pub proof fn lemma_size_fits(w: u32, h: u32, o: ResizeOptions)
    requires
        w > 0,
        h > 0,
        o.max_width > 0,
        o.max_height > 0,
    ensures
        ({
            let s = shrunk_to_fit(w as nat, h as nat, o.max_width as nat, o.max_height as nat);
            &&& s.0 <= o.max_width
            &&& s.1 <= o.max_height
            &&& s.0 >= floor_of(o) && s.1 >= floor_of(o) ==> target_of(w, h, o) == s
        }),
{
    let a = w as int;
    let b = h as int;
    let x = o.max_width as int;
    let y = o.max_height as int;
    if !(a <= x && b <= y) {
        if a * y >= x * b {
            assert((b * x + a / 2) / a <= y) by (nonlinear_arith)
                requires
                    a > 0,
                    y > 0,
                    a * y >= x * b,
            ;
        } else {
            assert((a * y + b / 2) / b <= x) by (nonlinear_arith)
                requires
                    b > 0,
                    x > 0,
                    a * y < x * b,
            ;
        }
    }
}

proof fn lemma_qualities(picture: Seq<u8>, best: BestView, o: ResizeOptions, i: int)
    requires
        0 <= i <= 4,
    ensures
        ({
            let (b, fits) = qualities(picture, best, o, i);
            &&& b.bytes.len() <= best.bytes.len()
            &&& b.width == best.width
            &&& b.height == best.height
            &&& fits ==> b.bytes.len() <= o.max_bytes
        }),
    decreases 4 - i,
{
    if i < 4 {
        let (b, fits) = after_quality(
            best,
            jpeg_file(picture, quality_step(i)),
            o.max_bytes as nat,
        );
        lemma_qualities(picture, b, o, i + 1);
        lemma_qualities(picture, best, o, i + 1);
    }
}

proof fn lemma_side_at(side: nat, i: int, floor: nat)
    requires
        floor <= side <= u32::MAX,
        side > 0,
        0 <= i < 4,
    ensures
        floor <= side_at(side, i, floor) <= side,
{
    assert(rounded(side, 3, 4) <= side);
    assert(rounded(side, 1, 2) <= side);
    assert(rounded(side, 7, 20) <= side);
    assert(rounded(side, 1, 4) <= side);
}

proof fn lemma_sizes(
    picture: Seq<u8>,
    best: BestView,
    width: nat,
    height: nat,
    o: ResizeOptions,
    floor: nat,
    i: int,
)
    requires
        0 <= i <= 4,
        floor <= best.width <= width <= u32::MAX,
        floor <= best.height <= height <= u32::MAX,
        width > 0,
        height > 0,
    ensures
        ({
            let b = sizes(picture, best, width, height, o, floor, i);
            &&& b.bytes.len() <= best.bytes.len()
            &&& floor <= b.width <= width
            &&& floor <= b.height <= height
        }),
    decreases 4 - i,
{
    if i < 4 {
        let w = side_at(width, i, floor);
        let h = side_at(height, i, floor);
        lemma_side_at(width, i, floor);
        lemma_side_at(height, i, floor);
        let (b, fits) = after_size(
            best,
            best_of(resized(picture, w as u32, h as u32), o.jpeg_quality, o.allow_webp),
            w as u32,
            h as u32,
            o.max_bytes as nat,
        );
        lemma_sizes(picture, b, width, height, o, floor, i + 1);
        lemma_sizes(picture, best, width, height, o, floor, i + 1);
    }
}

/// To bring a file to a budget never makes it larger, and no side of it shorter than the floor.
pub proof fn lemma_budget(picture: Seq<u8>, first: BestView, o: ResizeOptions, floor: nat)
    requires
        first.width > 0,
        first.height > 0,
        floor <= first.width,
        floor <= first.height,
    ensures
        ({
            let b = within_budget(picture, first, o, floor);
            &&& b.bytes.len() <= first.bytes.len()
            &&& floor <= b.width <= first.width
            &&& floor <= b.height <= first.height
        }),
{
    lemma_qualities(picture, first, o, 0);
    let (b, _) = qualities(picture, first, o, 0);
    lemma_sizes(picture, b, first.width as nat, first.height as nat, o, floor, 0);
}

/// No picture goes out with a side that is shorter than the floor.
pub proof fn lemma_no_side_too_short(input: Seq<u8>, o: ResizeOptions, scaled: Seq<u8>)
    requires
        o.max_width > 0,
        o.max_height > 0,
    ensures
        processed(input, o, scaled) matches Ok(p) ==> p.width >= floor_of(o) && p.height
            >= floor_of(o),
{
    if let Ok((w, h, mime)) = probe_of(input) {
        if w != 0 && h != 0 {
            lemma_floor_holds(w, h, o);
            let t = target_of(w, h, o);
            if let Ok(whole) = decoded(input, mime, MAX_DECODE_SIDE, MAX_DECODE_BYTES) {
                let picture = if t == (w as nat, h as nat) {
                    whole
                } else {
                    scaled
                };
                if let Ok(x) = best_of(picture, o.jpeg_quality, o.allow_webp) {
                    let first = BestView {
                        bytes: x.0,
                        mime: x.1,
                        width: t.0 as u32,
                        height: t.1 as u32,
                    };
                    lemma_budget(picture, first, o, floor_of(o));
                }
            }
        }
    }
}

/// Where the size of a picture stays, what becomes of it is settled by its file alone.
pub proof fn lemma_size_stays_then_settled(
    input: Seq<u8>,
    o: ResizeOptions,
    scaled: Seq<u8>,
    other: Seq<u8>,
)
    requires
        probe_of(input) matches Ok((w, h, _)) ==> target_of(w, h, o) == (w as nat, h as nat),
    ensures
        processed(input, o, scaled) == processed(input, o, other),
{
}

/// The file that is chosen is one that was tried, and none of the others is smaller.
pub proof fn lemma_chosen_is_smallest(l: Seq<CandidateView>)
    ensures
        match chosen(l) {
            Ok(x) => {
                &&& exists|k: int|
                    0 <= k < l.len() && (#[trigger] l[k]).result == Ok::<Seq<u8>, Seq<char>>(x.0)
                        && l[k].mime == x.1
                &&& forall|i: int|
                    0 <= i < l.len() ==> ((#[trigger] l[i]).result matches Ok(b) ==> x.0.len()
                        <= b.len())
            },
            Err(_) => forall|i: int| 0 <= i < l.len() ==> (#[trigger] l[i]).result is Err,
        },
{
    lemma_smallest(l, l.len() as int);
    lemma_none_smaller(l, l.len() as int);
}

proof fn lemma_none_smaller(l: Seq<CandidateView>, n: int)
    requires
        0 <= n <= l.len(),
    ensures
        smallest(l, n) matches Some(k) ==> 0 <= k < n && forall|i: int|
            0 <= i < n ==> ((#[trigger] l[i]).result matches Ok(b) ==> l[k].result->Ok_0.len()
                <= b.len()),
    decreases n,
{
    if n > 0 {
        lemma_smallest(l, n - 1);
        lemma_none_smaller(l, n - 1);
    }
}

} // verus!
