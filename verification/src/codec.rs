//! Encoding frames to PNG, JPEG and WebP and decoding raster images within
//! a memory budget. The codecs themselves are the `image` crate's; this
//! module prepares their input (dithering, WebP quantization, dropping
//! alpha for JPEG), checks the decode budget before any pixel buffer is
//! allocated, and maps their results.
use crate::frame::{color_rank, dither_rgba8, dither_state, dithered, CoreError, ExportOptions, ImageFileFormat, ImageFrame, BitDepth};
use crate::memory::{decode_check, MemoryBudget, MemoryBudgetError};
use crate::text::{decimal, push_decimal};
use image::ImageEncoder;
use vstd::prelude::*;

verus! {

/// The bytes of an encoder's output, or its error message.
pub open spec fn bytes_or_text(result: Result<Vec<u8>, String>) -> Result<Seq<u8>, Seq<char>> {
    match result {
        Ok(bytes) => Ok(bytes@),
        Err(text) => Err(text@),
    }
}

/// What `image`'s PNG encoder writes for RGBA8 `pixels` of the given size
/// (default compression and filter), or its error message.
pub uninterp spec fn png_rgba8_encoding(pixels: Seq<u8>, width: u32, height: u32) -> Result<Seq<u8>, Seq<char>>;

/// What `image`'s baseline JPEG encoder writes for RGB8 `rgb` of the given
/// size at `quality`, or its error message.
pub uninterp spec fn jpeg_rgb8_encoding(rgb: Seq<u8>, width: u32, height: u32, quality: u8) -> Result<Seq<u8>, Seq<char>>;

/// What `image`'s lossless WebP encoder writes for RGBA8 `pixels` of the
/// given size, or its error message.
pub uninterp spec fn webp_rgba8_encoding(pixels: Seq<u8>, width: u32, height: u32) -> Result<Seq<u8>, Seq<char>>;

/// The width and height that `image` reads from the header of an encoded
/// image of the given `format`, or its error message.
pub uninterp spec fn header_dimensions(bytes: Seq<u8>, format: RasterFormat) -> Result<(u32, u32), Seq<char>>;

/// The RGBA8 raster (width, height, bytes) that `image` decodes from an
/// encoded image of the given `format`, or its error message.
pub uninterp spec fn rgba8_decoding(bytes: Seq<u8>, format: RasterFormat) -> Result<(u32, u32, Seq<u8>), Seq<char>>;

/// The raster formats recognised by their leading signature bytes.
#[derive(Debug, Clone, Copy, PartialEq, Eq, Structural)]
pub enum RasterFormat {
    Png,
    Jpeg,
    Gif,
    WebP,
    Tiff,
    Dds,
    Bmp,
    Ico,
    Hdr,
    Avif,
    OpenExr,
    Qoi,
    Pnm,
    Farbfeld,
}

/// Byte `i` of the head of `bytes`, zero past its end.
pub open spec fn head_byte(bytes: Seq<u8>, i: int) -> u8 {
    if 0 <= i < bytes.len() {
        bytes[i]
    } else {
        0
    }
}

/// The head of `bytes` carries `signature`, the positions in
/// `[free_from, free_to)` matching anything.
pub open spec fn has_signature(bytes: Seq<u8>, signature: Seq<u8>, free_from: int, free_to: int) -> bool {
    forall|i: int| 0 <= i < signature.len() && !(free_from <= i < free_to) ==> #[trigger] head_byte(bytes, i) == signature[i]
}

/// The ASCII bytes `P` and a digit from 1 to 7, the portable-anymap signatures.
pub open spec fn is_pnm_head(bytes: Seq<u8>) -> bool {
    head_byte(bytes, 0) == 80 && 49 <= head_byte(bytes, 1) <= 55
}

/// The format announced by the leading bytes of an encoded image, the
/// signatures tried in this order; `None` when none matches.
pub open spec fn sniffed_format(bytes: Seq<u8>) -> Option<RasterFormat> {
    if has_signature(bytes, seq![0x89u8, 80, 78, 71, 13, 10, 26, 10], 0, 0) {
        Some(RasterFormat::Png)
    } else if has_signature(bytes, seq![0xffu8, 0xd8, 0xff], 0, 0) {
        Some(RasterFormat::Jpeg)
    } else if has_signature(bytes, seq![71u8, 73, 70, 56, 57, 97], 0, 0) || has_signature(bytes, seq![71u8, 73, 70, 56, 55, 97], 0, 0) {
        Some(RasterFormat::Gif)
    } else if has_signature(bytes, seq![82u8, 73, 70, 70, 0, 0, 0, 0, 87, 69, 66, 80], 4, 8) {
        Some(RasterFormat::WebP)
    } else if has_signature(bytes, seq![77u8, 77, 0, 42], 0, 0) || has_signature(bytes, seq![73u8, 73, 42, 0], 0, 0) {
        Some(RasterFormat::Tiff)
    } else if has_signature(bytes, seq![68u8, 68, 83, 32], 0, 0) {
        Some(RasterFormat::Dds)
    } else if has_signature(bytes, seq![66u8, 77], 0, 0) {
        Some(RasterFormat::Bmp)
    } else if has_signature(bytes, seq![0u8, 0, 1, 0], 0, 0) {
        Some(RasterFormat::Ico)
    } else if has_signature(bytes, seq![35u8, 63, 82, 65, 68, 73, 65, 78, 67, 69], 0, 0) {
        Some(RasterFormat::Hdr)
    } else if has_signature(bytes, seq![0u8, 0, 0, 0, 102, 116, 121, 112, 97, 118, 105, 102], 2, 4) {
        Some(RasterFormat::Avif)
    } else if has_signature(bytes, seq![0x76u8, 0x2f, 0x31, 0x01], 0, 0) {
        Some(RasterFormat::OpenExr)
    } else if has_signature(bytes, seq![113u8, 111, 105, 102], 0, 0) {
        Some(RasterFormat::Qoi)
    } else if is_pnm_head(bytes) {
        Some(RasterFormat::Pnm)
    } else if has_signature(bytes, seq![102u8, 97, 114, 98, 102, 101, 108, 100], 0, 0) {
        Some(RasterFormat::Farbfeld)
    } else {
        None
    }
}

/// Whether this build decodes the format (PNG, JPEG and WebP).
pub open spec fn decodable(format: RasterFormat) -> bool {
    format == RasterFormat::Png || format == RasterFormat::Jpeg || format == RasterFormat::WebP
}

/// The name of a format in decode errors.
pub open spec fn format_name(format: RasterFormat) -> Seq<char> {
    match format {
        RasterFormat::Png => "Png"@,
        RasterFormat::Jpeg => "Jpeg"@,
        RasterFormat::Gif => "Gif"@,
        RasterFormat::WebP => "WebP"@,
        RasterFormat::Tiff => "Tiff"@,
        RasterFormat::Dds => "Dds"@,
        RasterFormat::Bmp => "Bmp"@,
        RasterFormat::Ico => "Ico"@,
        RasterFormat::Hdr => "Hdr"@,
        RasterFormat::Avif => "Avif"@,
        RasterFormat::OpenExr => "OpenExr"@,
        RasterFormat::Qoi => "Qoi"@,
        RasterFormat::Pnm => "Pnm"@,
        RasterFormat::Farbfeld => "Farbfeld"@,
    }
}

/// The decode error for bytes whose format is unknown or not decoded by
/// this build.
pub open spec fn format_refusal(format: Option<RasterFormat>) -> Seq<char> {
    match format {
        None => "The image format could not be determined"@,
        Some(f) => "The image format "@ + format_name(f) + " is not supported"@,
    }
}

/// Whether the head of `bytes` carries `signature`, positions in
/// `[free_from, free_to)` matching anything.
fn head_matches(bytes: &[u8], signature: &[u8], free_from: usize, free_to: usize) -> (matches: bool)
    ensures
        matches == has_signature(bytes@, signature@, free_from as int, free_to as int),
{
    let mut i: usize = 0;
    while i < signature.len()
        invariant
            i <= signature@.len(),
            forall|k: int| 0 <= k < i && !(free_from <= k < free_to) ==> #[trigger] head_byte(bytes@, k) == signature@[k],
        decreases signature@.len() - i,
    {
        if !(free_from <= i && i < free_to) {
            let byte = if i < bytes.len() {
                bytes[i]
            } else {
                0
            };
            if byte != signature[i] {
                assert(head_byte(bytes@, i as int) != signature@[i as int]);
                return false;
            }
        }
        i += 1;
    }
    true
}

/// The format announced by the leading bytes of `bytes`.
pub fn guess_raster_format(bytes: &[u8]) -> (format: Option<RasterFormat>)
    ensures
        format == sniffed_format(bytes@),
{
    let png: Vec<u8> = vec![0x89, 80, 78, 71, 13, 10, 26, 10];
    let jpeg: Vec<u8> = vec![0xff, 0xd8, 0xff];
    let gif9: Vec<u8> = vec![71, 73, 70, 56, 57, 97];
    let gif7: Vec<u8> = vec![71, 73, 70, 56, 55, 97];
    let webp: Vec<u8> = vec![82, 73, 70, 70, 0, 0, 0, 0, 87, 69, 66, 80];
    let tiff_mm: Vec<u8> = vec![77, 77, 0, 42];
    let tiff_ii: Vec<u8> = vec![73, 73, 42, 0];
    let dds: Vec<u8> = vec![68, 68, 83, 32];
    let bmp: Vec<u8> = vec![66, 77];
    let ico: Vec<u8> = vec![0, 0, 1, 0];
    let hdr: Vec<u8> = vec![35, 63, 82, 65, 68, 73, 65, 78, 67, 69];
    let avif: Vec<u8> = vec![0, 0, 0, 0, 102, 116, 121, 112, 97, 118, 105, 102];
    let exr: Vec<u8> = vec![0x76, 0x2f, 0x31, 0x01];
    let qoi: Vec<u8> = vec![113, 111, 105, 102];
    let farbfeld: Vec<u8> = vec![102, 97, 114, 98, 102, 101, 108, 100];
    proof {
        assert(png@ =~= seq![0x89u8, 80, 78, 71, 13, 10, 26, 10]);
        assert(jpeg@ =~= seq![0xffu8, 0xd8, 0xff]);
        assert(gif9@ =~= seq![71u8, 73, 70, 56, 57, 97]);
        assert(gif7@ =~= seq![71u8, 73, 70, 56, 55, 97]);
        assert(webp@ =~= seq![82u8, 73, 70, 70, 0, 0, 0, 0, 87, 69, 66, 80]);
        assert(tiff_mm@ =~= seq![77u8, 77, 0, 42]);
        assert(tiff_ii@ =~= seq![73u8, 73, 42, 0]);
        assert(dds@ =~= seq![68u8, 68, 83, 32]);
        assert(bmp@ =~= seq![66u8, 77]);
        assert(ico@ =~= seq![0u8, 0, 1, 0]);
        assert(hdr@ =~= seq![35u8, 63, 82, 65, 68, 73, 65, 78, 67, 69]);
        assert(avif@ =~= seq![0u8, 0, 0, 0, 102, 116, 121, 112, 97, 118, 105, 102]);
        assert(exr@ =~= seq![0x76u8, 0x2f, 0x31, 0x01]);
        assert(qoi@ =~= seq![113u8, 111, 105, 102]);
        assert(farbfeld@ =~= seq![102u8, 97, 114, 98, 102, 101, 108, 100]);
    }
    if head_matches(bytes, png.as_slice(), 0, 0) {
        Some(RasterFormat::Png)
    } else if head_matches(bytes, jpeg.as_slice(), 0, 0) {
        Some(RasterFormat::Jpeg)
    } else if head_matches(bytes, gif9.as_slice(), 0, 0) || head_matches(bytes, gif7.as_slice(), 0, 0) {
        Some(RasterFormat::Gif)
    } else if head_matches(bytes, webp.as_slice(), 4, 8) {
        Some(RasterFormat::WebP)
    } else if head_matches(bytes, tiff_mm.as_slice(), 0, 0) || head_matches(bytes, tiff_ii.as_slice(), 0, 0) {
        Some(RasterFormat::Tiff)
    } else if head_matches(bytes, dds.as_slice(), 0, 0) {
        Some(RasterFormat::Dds)
    } else if head_matches(bytes, bmp.as_slice(), 0, 0) {
        Some(RasterFormat::Bmp)
    } else if head_matches(bytes, ico.as_slice(), 0, 0) {
        Some(RasterFormat::Ico)
    } else if head_matches(bytes, hdr.as_slice(), 0, 0) {
        Some(RasterFormat::Hdr)
    } else if head_matches(bytes, avif.as_slice(), 2, 4) {
        Some(RasterFormat::Avif)
    } else if head_matches(bytes, exr.as_slice(), 0, 0) {
        Some(RasterFormat::OpenExr)
    } else if head_matches(bytes, qoi.as_slice(), 0, 0) {
        Some(RasterFormat::Qoi)
    } else if bytes.len() >= 2 && bytes[0] == 80 && 49 <= bytes[1] && bytes[1] <= 55 {
        Some(RasterFormat::Pnm)
    } else if head_matches(bytes, farbfeld.as_slice(), 0, 0) {
        Some(RasterFormat::Farbfeld)
    } else {
        None
    }
}

/// The decode error text for an unknown or undecoded format.
fn format_refusal_text(format: Option<RasterFormat>) -> (text: String)
    ensures
        text@ == format_refusal(format),
{
    match format {
        None => {
            let text = String::from_str("The image format could not be determined");
            proof {
                reveal_strlit("The image format could not be determined");
            }
            text
        },
        Some(f) => {
            let name = match f {
                RasterFormat::Png => "Png",
                RasterFormat::Jpeg => "Jpeg",
                RasterFormat::Gif => "Gif",
                RasterFormat::WebP => "WebP",
                RasterFormat::Tiff => "Tiff",
                RasterFormat::Dds => "Dds",
                RasterFormat::Bmp => "Bmp",
                RasterFormat::Ico => "Ico",
                RasterFormat::Hdr => "Hdr",
                RasterFormat::Avif => "Avif",
                RasterFormat::OpenExr => "OpenExr",
                RasterFormat::Qoi => "Qoi",
                RasterFormat::Pnm => "Pnm",
                RasterFormat::Farbfeld => "Farbfeld",
            };
            let mut text = String::from_str("The image format ");
            text.append(name);
            text.append(" is not supported");
            text
        },
    }
}

/// Encodes with `image::codecs::png::PngEncoder::write_image` (RGBA8,
/// default settings) into a byte vector, the error rendered as text. The
/// result is named [`png_rgba8_encoding`] of the arguments; nothing else is
/// claimed of the encoder. It panics unless the buffer holds exactly
/// `width * height` pixels, which `requires` rules out.
#[verifier::external_body]
fn encode_png_rgba8(pixels: &[u8], width: u32, height: u32) -> (encoded: Result<Vec<u8>, String>)
    requires
        pixels@.len() == width * height * 4,
    ensures
        bytes_or_text(encoded) == png_rgba8_encoding(pixels@, width, height),
{
    let mut output = std::io::Cursor::new(Vec::new());
    match image::codecs::png::PngEncoder::new(&mut output).write_image(pixels, width, height, image::ExtendedColorType::Rgba8) {
        Ok(()) => Ok(output.into_inner()),
        Err(error) => Err(error.to_string()),
    }
}

/// Encodes with `image::codecs::jpeg::JpegEncoder::new_with_quality` and
/// `write_image` (RGB8) into a byte vector, the error rendered as text.
/// The result is named [`jpeg_rgb8_encoding`] of the arguments. It panics
/// unless the buffer holds exactly `width * height` RGB pixels, which
/// `requires` rules out.
#[verifier::external_body]
fn encode_jpeg_rgb8(rgb: &[u8], width: u32, height: u32, quality: u8) -> (encoded: Result<Vec<u8>, String>)
    requires
        rgb@.len() == width * height * 3,
    ensures
        bytes_or_text(encoded) == jpeg_rgb8_encoding(rgb@, width, height, quality),
{
    let mut output = std::io::Cursor::new(Vec::new());
    match image::codecs::jpeg::JpegEncoder::new_with_quality(&mut output, quality).write_image(rgb, width, height, image::ExtendedColorType::Rgb8) {
        Ok(()) => Ok(output.into_inner()),
        Err(error) => Err(error.to_string()),
    }
}

/// Encodes with `image::codecs::webp::WebPEncoder::new_lossless` and
/// `write_image` (RGBA8) into a byte vector, the error rendered as text.
/// The result is named [`webp_rgba8_encoding`] of the arguments. It panics
/// unless the buffer holds exactly `width * height` pixels, which
/// `requires` rules out.
#[verifier::external_body]
fn encode_webp_rgba8(pixels: &[u8], width: u32, height: u32) -> (encoded: Result<Vec<u8>, String>)
    requires
        pixels@.len() == width * height * 4,
    ensures
        bytes_or_text(encoded) == webp_rgba8_encoding(pixels@, width, height),
{
    let mut output = std::io::Cursor::new(Vec::new());
    match image::codecs::webp::WebPEncoder::new_lossless(&mut output).write_image(pixels, width, height, image::ExtendedColorType::Rgba8) {
        Ok(()) => Ok(output.into_inner()),
        Err(error) => Err(error.to_string()),
    }
}

/// Reads the dimensions from the header with `image::ImageReader::with_format`
/// and `into_dimensions`, without decoding pixels; errors are rendered as
/// text. The format is fixed by the caller, so no registered format hook is
/// consulted. The result is named [`header_dimensions`] of the bytes and
/// format. The contract speaks only of a call that returns: the `image`
/// crate lists among its known issues that many of its decoders may panic
/// on malicious input, so that a malformed header always gives `Err` is not
/// claimed (the wrapper, like any function here, is not marked as one that
/// cannot unwind).
#[verifier::external_body]
fn read_header_dimensions(bytes: &[u8], format: RasterFormat) -> (dimensions: Result<(u32, u32), String>)
    requires
        decodable(format),
    ensures
        match dimensions {
            Ok(d) => header_dimensions(bytes@, format) == Ok::<(u32, u32), Seq<char>>(d),
            Err(text) => header_dimensions(bytes@, format) == Err::<(u32, u32), Seq<char>>(text@),
        },
{
    let format = match format {
        RasterFormat::Png => image::ImageFormat::Png,
        RasterFormat::Jpeg => image::ImageFormat::Jpeg,
        _ => image::ImageFormat::WebP,
    };
    match image::ImageReader::with_format(std::io::Cursor::new(bytes), format).into_dimensions() {
        Ok(dimensions) => Ok(dimensions),
        Err(error) => Err(error.to_string()),
    }
}

/// Decodes with `image::load_from_memory_with_format` and converts with
/// `DynamicImage::to_rgba8`, returning width, height and the raw RGBA8
/// bytes; errors are rendered as text. The format is fixed by the caller,
/// so no registered format hook is consulted. The result is named
/// [`rgba8_decoding`] of the bytes and format. The contract speaks only of
/// a call that returns: the `image` crate lists among its known issues that
/// many of its decoders may panic on malicious input, so that malformed
/// bytes always give `Err` is not claimed.
#[verifier::external_body]
fn decode_rgba8(bytes: &[u8], format: RasterFormat) -> (decoded: Result<(u32, u32, Vec<u8>), String>)
    requires
        decodable(format),
    ensures
        match decoded {
            Ok((w, h, pixels)) => rgba8_decoding(bytes@, format) == Ok::<(u32, u32, Seq<u8>), Seq<char>>((w, h, pixels@)),
            Err(text) => rgba8_decoding(bytes@, format) == Err::<(u32, u32, Seq<u8>), Seq<char>>(text@),
        },
{
    let format = match format {
        RasterFormat::Png => image::ImageFormat::Png,
        RasterFormat::Jpeg => image::ImageFormat::Jpeg,
        _ => image::ImageFormat::WebP,
    };
    match image::load_from_memory_with_format(bytes, format) {
        Ok(image) => {
            let rgba = image.to_rgba8();
            Ok((rgba.width(), rgba.height(), rgba.into_raw()))
        },
        Err(error) => Err(error.to_string()),
    }
}

/// The message of a decode refused by the memory budget.
pub open spec fn decode_budget_text(width: u32, height: u32, error: MemoryBudgetError) -> Seq<char> {
    "image "@ + decimal(width as nat) + "x"@ + decimal(height as nat) + " exceeds the decode memory budget: "@
        + error.text()
}

/// The outcome of decoding `bytes` within `budget`: the format is read from
/// the leading signature bytes; then the header is read and checked against
/// the budget (four bytes per pixel) before any pixels are decoded.
pub open spec fn decode_result(bytes: Seq<u8>, budget: MemoryBudget, result: Result<ImageFrame, CoreError>) -> bool {
    let format = sniffed_format(bytes);
    if !(format matches Some(f) && decodable(f)) {
        result matches Err(CoreError::Decode(m)) && m@ == format_refusal(format)
    } else {
        decoded_as(bytes, format.unwrap(), budget, result)
    }
}

/// The outcome of decoding `bytes` as `format` within `budget`.
pub open spec fn decoded_as(bytes: Seq<u8>, format: RasterFormat, budget: MemoryBudget, result: Result<ImageFrame, CoreError>) -> bool {
    match header_dimensions(bytes, format) {
        Err(text) => result matches Err(CoreError::Decode(m)) && m@ == text,
        Ok((w, h)) => match decode_check(budget, w as int, h as int, 4, 1) {
            Err(e) => result matches Err(CoreError::Decode(m)) && m@ == decode_budget_text(w, h, e),
            Ok(_) => match rgba8_decoding(bytes, format) {
                Err(text) => result matches Err(CoreError::Decode(m)) && m@ == text,
                Ok((dw, dh, pixels)) => if pixels.len() == dw * dh * 4 {
                    result matches Ok(frame) && frame.width == dw && frame.height == dh && frame.pixels@ == pixels
                } else {
                    result == Err::<ImageFrame, CoreError>(
                        CoreError::InvalidFrame { width: dw, height: dh, length: pixels.len() as usize },
                    )
                },
            },
        },
    }
}

/// The buffer after the one-code dither of its colour bytes.
pub open spec fn dithered_buffer(pixels: Seq<u8>, seed: u64) -> Seq<u8> {
    Seq::new(
        pixels.len(),
        |i: int|
            if i % 4 == 3 {
                pixels[i]
            } else {
                dithered(pixels[i], dither_state(seed, (color_rank(i) + 1) as nat))
            },
    )
}

/// The quantization step of a lossy WebP export: `(101 - quality) / 10`,
/// at least one.
pub open spec fn quantize_step(quality: u8) -> u8 {
    if (101 - quality) / 10 >= 1 {
        ((101 - quality) / 10) as u8
    } else {
        1
    }
}

/// The buffer with every colour byte rounded down to a multiple of `step`.
pub open spec fn quantized_buffer(pixels: Seq<u8>, step: u8) -> Seq<u8> {
    Seq::new(pixels.len(), |i: int| if i % 4 == 3 { pixels[i] } else { ((pixels[i] / step) * step) as u8 })
}

/// The RGBA8 bytes handed to the encoder: dithered if asked, and
/// quantized for a lossy WebP export.
pub open spec fn prepared_pixels(pixels: Seq<u8>, options: ExportOptions) -> Seq<u8> {
    let dithered = if options.dither { dithered_buffer(pixels, options.seed) } else { pixels };
    if options.format == ImageFileFormat::WebP && options.quality < 100 {
        quantized_buffer(dithered, quantize_step(options.quality))
    } else {
        dithered
    }
}

/// The RGB bytes of an RGBA8 buffer (alpha dropped).
pub open spec fn rgb_of(pixels: Seq<u8>) -> Seq<u8> {
    Seq::new(3 * (pixels.len() / 4), |i: int| pixels[4 * (i / 3) + i % 3])
}

/// What the encoder makes of `frame` under (valid) `options`.
pub open spec fn encoding_of(frame: ImageFrame, options: ExportOptions) -> Result<Seq<u8>, Seq<char>> {
    let prepared = prepared_pixels(frame.pixels@, options);
    match options.format {
        ImageFileFormat::Png => png_rgba8_encoding(prepared, frame.width, frame.height),
        ImageFileFormat::Jpeg => jpeg_rgb8_encoding(rgb_of(prepared), frame.width, frame.height, options.quality),
        ImageFileFormat::WebP => webp_rgba8_encoding(prepared, frame.width, frame.height),
    }
}

/// The outcome of encoding `frame` under `options`.
pub open spec fn encode_result(frame: ImageFrame, options: ExportOptions, result: Result<Vec<u8>, CoreError>) -> bool {
    if options.quality == 0 || options.quality > 100 {
        result matches Err(CoreError::InvalidAdjustment { name, value, minimum, maximum }) && name@ == "quality"@ && value == options.quality
            && minimum == 1 && maximum == 100
    } else if options.bit_depth != BitDepth::Eight {
        result matches Err(CoreError::Encode(_))
    } else {
        match encoding_of(frame, options) {
            Ok(bytes) => result matches Ok(out) && out@ == bytes,
            Err(text) => result matches Err(CoreError::Encode(m)) && m@ == text,
        }
    }
}

fn quantize_colors(pixels: &mut Vec<u8>, step: u8)
    requires
        step >= 1,
    ensures
        final(pixels)@ == quantized_buffer(old(pixels)@, step),
{
    let ghost start = pixels@;
    let mut index: usize = 0;
    while index < pixels.len()
        invariant
            step >= 1,
            pixels@.len() == start.len(),
            index <= start.len(),
            forall|i: int| 0 <= i < index ==> #[trigger] pixels@[i] == quantized_buffer(start, step)[i],
            forall|i: int| index <= i < start.len() ==> #[trigger] pixels@[i] == start[i],
        decreases start.len() - index,
    {
        if index % 4 != 3 {
            let value = pixels[index];
            proof {
                assert((value / step) * step <= value) by (nonlinear_arith)
                    requires
                        step >= 1,
                ;
            }
            let rounded = (value / step) * step;
            pixels.set(index, rounded);
        }
        index += 1;
    }
    proof {
        assert(pixels@ =~= quantized_buffer(start, step));
    }
}

/// The RGB bytes of an RGBA8 buffer (alpha dropped).
pub fn rgb_bytes(pixels: &[u8]) -> (rgb: Vec<u8>)
    ensures
        rgb@ == rgb_of(pixels@),
{
    let len = pixels.len();
    let count = len / 4;
    let mut rgb: Vec<u8> = Vec::new();
    let mut k: usize = 0;
    while k < count
        invariant
            len == pixels@.len(),
            count == pixels@.len() / 4,
            k <= count,
            rgb@.len() == 3 * k,
            forall|j: int, c: int| 0 <= j < k && 0 <= c < 3 ==> #[trigger] rgb@[3 * j + c] == pixels@[4 * j + c],
        decreases count - k,
    {
        proof {
            assert(4 * k + 3 < pixels@.len()) by (nonlinear_arith)
                requires
                    k < count,
                    count == pixels@.len() / 4,
            ;
        }
        let base = 4 * k;
        let ghost before = rgb@;
        rgb.push(pixels[base]);
        rgb.push(pixels[base + 1]);
        rgb.push(pixels[base + 2]);
        proof {
            assert forall|j: int, c: int| 0 <= j < k + 1 && 0 <= c < 3 implies #[trigger] rgb@[3 * j + c] == pixels@[4 * j + c] by {
                if j < k {
                    assert(rgb@[3 * j + c] == before[3 * j + c]);
                }
            }
        }
        k += 1;
    }
    proof {
        assert forall|i: int| 0 <= i < rgb@.len() implies #[trigger] rgb@[i] == rgb_of(pixels@)[i] by {
            let j = i / 3;
            let c = i % 3;
            assert(i == 3 * j + c && 0 <= c < 3 && 0 <= j < count) by (nonlinear_arith)
                requires
                    0 <= i < 3 * count,
                    j == i / 3,
                    c == i % 3,
            ;
        }
        assert(rgb@ =~= rgb_of(pixels@));
    }
    rgb
}

impl ImageFrame {
    /// Decodes an encoded raster image (PNG/JPEG/WebP) into an RGBA8 frame.
    /// The dimensions are read from the header and checked against `budget`
    /// (four bytes per pixel) before any pixel buffer is decoded, so an
    /// oversized or corrupt input fails fast with a decode error.
    pub fn decode_with_budget(bytes: &[u8], budget: &MemoryBudget) -> (result: Result<ImageFrame, CoreError>)
        ensures
            decode_result(bytes@, *budget, result),
    {
        let format = match guess_raster_format(bytes) {
            Some(RasterFormat::Png) => RasterFormat::Png,
            Some(RasterFormat::Jpeg) => RasterFormat::Jpeg,
            Some(RasterFormat::WebP) => RasterFormat::WebP,
            other => return Err(CoreError::Decode(format_refusal_text(other))),
        };
        let (width, height) = match read_header_dimensions(bytes, format) {
            Ok(dimensions) => dimensions,
            Err(text) => return Err(CoreError::Decode(text)),
        };
        match budget.check_decode(width as u64, height as u64, 4, 1) {
            Ok(_) => {},
            Err(error) => {
                let mut text = String::from_str("image ");
                push_decimal(&mut text, width as u64);
                text.append("x");
                push_decimal(&mut text, height as u64);
                text.append(" exceeds the decode memory budget: ");
                let detail = error.message();
                text.append(detail.as_str());
                return Err(CoreError::Decode(text));
            },
        }
        match decode_rgba8(bytes, format) {
            Ok((w, h, pixels)) => ImageFrame::new(w, h, pixels),
            Err(text) => Err(CoreError::Decode(text)),
        }
    }

    /// Encodes the frame under `options`: dithered if asked, colour bytes
    /// quantized for a lossy WebP (quality below 100), alpha dropped for
    /// JPEG.
    pub fn encode_with_options(&self, options: ExportOptions) -> (result: Result<Vec<u8>, CoreError>)
        requires
            self.wf(),
        ensures
            encode_result(*self, options, result),
    {
        match options.validate() {
            Ok(()) => {},
            Err(error) => return Err(error),
        }
        let mut pixels = crate::cache::copy_bytes(self.pixels.as_slice());
        let ghost plain = pixels@;
        if options.dither {
            dither_rgba8(pixels.as_mut_slice(), options.seed);
            proof {
                assert(pixels@ =~= dithered_buffer(plain, options.seed));
            }
        }
        let ghost after_dither = pixels@;
        if matches!(options.format, ImageFileFormat::WebP) && options.quality < 100 {
            let step_wide: u16 = (101 - options.quality as u16) / 10;
            let step: u8 = if step_wide >= 1 { step_wide as u8 } else { 1 };
            quantize_colors(&mut pixels, step);
        }
        proof {
            assert(pixels@ =~= prepared_pixels(self.pixels@, options));
        }
        let encoded = match options.format {
            ImageFileFormat::Png => encode_png_rgba8(pixels.as_slice(), self.width, self.height),
            ImageFileFormat::Jpeg => {
                let rgb = rgb_bytes(pixels.as_slice());
                proof {
                    assert(rgb@.len() == self.width * self.height * 3) by (nonlinear_arith)
                        requires
                            rgb@.len() == 3 * (pixels@.len() / 4),
                            pixels@.len() == self.width * self.height * 4,
                    ;
                }
                encode_jpeg_rgb8(rgb.as_slice(), self.width, self.height, options.quality)
            },
            ImageFileFormat::WebP => encode_webp_rgba8(pixels.as_slice(), self.width, self.height),
        };
        match encoded {
            Ok(bytes) => Ok(bytes),
            Err(text) => Err(CoreError::Encode(text)),
        }
    }

    /// Encodes the frame in `format` with the default options but without
    /// dithering.
    pub fn encode(&self, format: ImageFileFormat) -> (result: Result<Vec<u8>, CoreError>)
        requires
            self.wf(),
        ensures
            encode_result(
                *self,
                ExportOptions { format, bit_depth: BitDepth::Eight, quality: 90, dither: false, seed: 0 },
                result,
            ),
    {
        let defaults = ExportOptions::default();
        self.encode_with_options(ExportOptions { format, dither: false, ..defaults })
    }
}

/// Encodes an RGBA8 frame to lossless WebP, preserving the alpha channel.
pub fn encode_webp_lossless(frame: &ImageFrame) -> (result: Result<Vec<u8>, CoreError>)
    requires
        frame.wf(),
    ensures
        match webp_rgba8_encoding(frame.pixels@, frame.width, frame.height) {
            Ok(bytes) => result matches Ok(out) && out@ == bytes,
            Err(text) => result matches Err(CoreError::Encode(m)) && m@ == text,
        },
{
    match encode_webp_rgba8(frame.pixels.as_slice(), frame.width, frame.height) {
        Ok(bytes) => Ok(bytes),
        Err(text) => Err(CoreError::Encode(text)),
    }
}

/// Decodes a WebP preview into an RGBA8 frame (alpha preserved), within
/// `budget`.
pub fn decode_webp(bytes: &[u8], budget: &MemoryBudget) -> (result: Result<ImageFrame, CoreError>)
    ensures
        decode_result(bytes@, *budget, result),
{
    ImageFrame::decode_with_budget(bytes, budget)
}

/// A head whose first byte differs from a signature's first byte does not
/// carry that signature.
proof fn lemma_first_byte_differs(bytes: Seq<u8>, signature: Seq<u8>, free_from: int, free_to: int)
    requires
        signature.len() > 0,
        !(free_from <= 0 < free_to),
        head_byte(bytes, 0) != signature[0],
    ensures
        !has_signature(bytes, signature, free_from, free_to),
{
}

/// Every buffer that starts with `MM 00 2A` (big-endian TIFF) sniffs as TIFF.
pub proof fn lemma_tiff_head_sniffs_tiff(bytes: Seq<u8>)
    requires
        bytes.len() >= 4,
        bytes[0] == 77 && bytes[1] == 77 && bytes[2] == 0 && bytes[3] == 42,
    ensures
        sniffed_format(bytes) == Some(RasterFormat::Tiff),
{
    lemma_first_byte_differs(bytes, seq![0x89u8, 80, 78, 71, 13, 10, 26, 10], 0, 0);
    lemma_first_byte_differs(bytes, seq![0xffu8, 0xd8, 0xff], 0, 0);
    lemma_first_byte_differs(bytes, seq![71u8, 73, 70, 56, 57, 97], 0, 0);
    lemma_first_byte_differs(bytes, seq![71u8, 73, 70, 56, 55, 97], 0, 0);
    lemma_first_byte_differs(bytes, seq![82u8, 73, 70, 70, 0, 0, 0, 0, 87, 69, 66, 80], 4, 8);
    assert forall|i: int| 0 <= i < seq![77u8, 77, 0, 42].len() && !(0 <= i < 0) implies #[trigger] head_byte(bytes, i) == seq![77u8, 77, 0, 42][i] by {}
}

/// Every buffer that starts with `DDS ` sniffs as DDS.
pub proof fn lemma_dds_head_sniffs_dds(bytes: Seq<u8>)
    requires
        bytes.len() >= 4,
        bytes[0] == 68 && bytes[1] == 68 && bytes[2] == 83 && bytes[3] == 32,
    ensures
        sniffed_format(bytes) == Some(RasterFormat::Dds),
{
    lemma_first_byte_differs(bytes, seq![0x89u8, 80, 78, 71, 13, 10, 26, 10], 0, 0);
    lemma_first_byte_differs(bytes, seq![0xffu8, 0xd8, 0xff], 0, 0);
    lemma_first_byte_differs(bytes, seq![71u8, 73, 70, 56, 57, 97], 0, 0);
    lemma_first_byte_differs(bytes, seq![71u8, 73, 70, 56, 55, 97], 0, 0);
    lemma_first_byte_differs(bytes, seq![82u8, 73, 70, 70, 0, 0, 0, 0, 87, 69, 66, 80], 4, 8);
    lemma_first_byte_differs(bytes, seq![77u8, 77, 0, 42], 0, 0);
    lemma_first_byte_differs(bytes, seq![73u8, 73, 42, 0], 0, 0);
    assert forall|i: int| 0 <= i < seq![68u8, 68, 83, 32].len() && !(0 <= i < 0) implies #[trigger] head_byte(bytes, i) == seq![68u8, 68, 83, 32][i] by {}
}

/// Every buffer that starts with `BM` sniffs as BMP.
pub proof fn lemma_bmp_head_sniffs_bmp(bytes: Seq<u8>)
    requires
        bytes.len() >= 2,
        bytes[0] == 66 && bytes[1] == 77,
    ensures
        sniffed_format(bytes) == Some(RasterFormat::Bmp),
{
    lemma_first_byte_differs(bytes, seq![0x89u8, 80, 78, 71, 13, 10, 26, 10], 0, 0);
    lemma_first_byte_differs(bytes, seq![0xffu8, 0xd8, 0xff], 0, 0);
    lemma_first_byte_differs(bytes, seq![71u8, 73, 70, 56, 57, 97], 0, 0);
    lemma_first_byte_differs(bytes, seq![71u8, 73, 70, 56, 55, 97], 0, 0);
    lemma_first_byte_differs(bytes, seq![82u8, 73, 70, 70, 0, 0, 0, 0, 87, 69, 66, 80], 4, 8);
    lemma_first_byte_differs(bytes, seq![77u8, 77, 0, 42], 0, 0);
    lemma_first_byte_differs(bytes, seq![73u8, 73, 42, 0], 0, 0);
    lemma_first_byte_differs(bytes, seq![68u8, 68, 83, 32], 0, 0);
    assert forall|i: int| 0 <= i < seq![66u8, 77].len() && !(0 <= i < 0) implies #[trigger] head_byte(bytes, i) == seq![66u8, 77][i] by {}
}

/// Every buffer that starts with `qoif` sniffs as QOI.
pub proof fn lemma_qoi_head_sniffs_qoi(bytes: Seq<u8>)
    requires
        bytes.len() >= 4,
        bytes[0] == 113 && bytes[1] == 111 && bytes[2] == 105 && bytes[3] == 102,
    ensures
        sniffed_format(bytes) == Some(RasterFormat::Qoi),
{
    lemma_first_byte_differs(bytes, seq![0x89u8, 80, 78, 71, 13, 10, 26, 10], 0, 0);
    lemma_first_byte_differs(bytes, seq![0xffu8, 0xd8, 0xff], 0, 0);
    lemma_first_byte_differs(bytes, seq![71u8, 73, 70, 56, 57, 97], 0, 0);
    lemma_first_byte_differs(bytes, seq![71u8, 73, 70, 56, 55, 97], 0, 0);
    lemma_first_byte_differs(bytes, seq![82u8, 73, 70, 70, 0, 0, 0, 0, 87, 69, 66, 80], 4, 8);
    lemma_first_byte_differs(bytes, seq![77u8, 77, 0, 42], 0, 0);
    lemma_first_byte_differs(bytes, seq![73u8, 73, 42, 0], 0, 0);
    lemma_first_byte_differs(bytes, seq![68u8, 68, 83, 32], 0, 0);
    lemma_first_byte_differs(bytes, seq![66u8, 77], 0, 0);
    lemma_first_byte_differs(bytes, seq![0u8, 0, 1, 0], 0, 0);
    lemma_first_byte_differs(bytes, seq![35u8, 63, 82, 65, 68, 73, 65, 78, 67, 69], 0, 0);
    lemma_first_byte_differs(bytes, seq![0u8, 0, 0, 0, 102, 116, 121, 112, 97, 118, 105, 102], 2, 4);
    lemma_first_byte_differs(bytes, seq![0x76u8, 0x2f, 0x31, 0x01], 0, 0);
    assert forall|i: int| 0 <= i < seq![113u8, 111, 105, 102].len() && !(0 <= i < 0) implies #[trigger] head_byte(bytes, i) == seq![113u8, 111, 105, 102][i] by {}
}

/// Every buffer that starts with the PNG signature `89 50 4E 47 0D 0A 1A
/// 0A` sniffs as PNG.
pub proof fn lemma_png_head_sniffs_png(bytes: Seq<u8>)
    requires
        bytes.len() >= 8,
        bytes.subrange(0, 8) == seq![0x89u8, 0x50, 0x4e, 0x47, 0x0d, 0x0a, 0x1a, 0x0a],
    ensures
        sniffed_format(bytes) == Some(RasterFormat::Png),
{
    let sig = seq![0x89u8, 0x50, 0x4e, 0x47, 0x0d, 0x0a, 0x1a, 0x0a];
    assert forall|i: int| 0 <= i < sig.len() implies #[trigger] head_byte(bytes, i) == sig[i] by {
        assert(bytes.subrange(0, 8)[i] == bytes[i]);
    }
    assert(seq![0x89u8, 80, 78, 71, 13, 10, 26, 10] =~= sig);
}

/// Every buffer that starts with `FF D8 FF` (a JPEG start-of-image marker
/// followed by any segment marker, JFIF, EXIF or other) sniffs as JPEG.
pub proof fn lemma_jpeg_head_sniffs_jpeg(bytes: Seq<u8>)
    requires
        bytes.len() >= 3,
        bytes[0] == 0xff,
        bytes[1] == 0xd8,
        bytes[2] == 0xff,
    ensures
        sniffed_format(bytes) == Some(RasterFormat::Jpeg),
{
    assert(head_byte(bytes, 0) == 0xff);
    assert(head_byte(bytes, 1) == 0xd8);
    assert(head_byte(bytes, 2) == 0xff);
    assert(!has_signature(bytes, seq![0x89u8, 80, 78, 71, 13, 10, 26, 10], 0, 0)) by {
        assert(seq![0x89u8, 80, 78, 71, 13, 10, 26, 10][0] == 0x89);
    }
    assert forall|i: int| 0 <= i < 3 implies #[trigger] head_byte(bytes, i) == seq![0xffu8, 0xd8, 0xff][i] by {}
}

/// Every buffer that starts with `GIF87a` or `GIF89a` sniffs as GIF.
pub proof fn lemma_gif_head_sniffs_gif(bytes: Seq<u8>)
    requires
        bytes.len() >= 6,
        bytes[0] == 71 && bytes[1] == 73 && bytes[2] == 70 && bytes[3] == 56,
        bytes[4] == 55 || bytes[4] == 57,
        bytes[5] == 97,
    ensures
        sniffed_format(bytes) == Some(RasterFormat::Gif),
{
    assert(head_byte(bytes, 0) == 71);
    assert(!has_signature(bytes, seq![0x89u8, 80, 78, 71, 13, 10, 26, 10], 0, 0)) by {
        assert(seq![0x89u8, 80, 78, 71, 13, 10, 26, 10][0] == 0x89);
    }
    assert(!has_signature(bytes, seq![0xffu8, 0xd8, 0xff], 0, 0)) by {
        assert(seq![0xffu8, 0xd8, 0xff][0] == 0xff);
    }
    if bytes[4] == 57 {
        assert forall|i: int| 0 <= i < 6 implies #[trigger] head_byte(bytes, i) == seq![71u8, 73, 70, 56, 57, 97][i] by {}
    } else {
        assert forall|i: int| 0 <= i < 6 implies #[trigger] head_byte(bytes, i) == seq![71u8, 73, 70, 56, 55, 97][i] by {}
    }
}

/// Every buffer that starts with `RIFF`, four size bytes and `WEBP` sniffs
/// as WebP.
pub proof fn lemma_webp_head_sniffs_webp(bytes: Seq<u8>)
    requires
        bytes.len() >= 12,
        bytes[0] == 82 && bytes[1] == 73 && bytes[2] == 70 && bytes[3] == 70,
        bytes[8] == 87 && bytes[9] == 69 && bytes[10] == 66 && bytes[11] == 80,
    ensures
        sniffed_format(bytes) == Some(RasterFormat::WebP),
{
    assert(head_byte(bytes, 0) == 82);
    assert(!has_signature(bytes, seq![0x89u8, 80, 78, 71, 13, 10, 26, 10], 0, 0)) by {
        assert(seq![0x89u8, 80, 78, 71, 13, 10, 26, 10][0] == 0x89);
    }
    assert(!has_signature(bytes, seq![0xffu8, 0xd8, 0xff], 0, 0)) by {
        assert(seq![0xffu8, 0xd8, 0xff][0] == 0xff);
    }
    assert(!has_signature(bytes, seq![71u8, 73, 70, 56, 57, 97], 0, 0)) by {
        assert(seq![71u8, 73, 70, 56, 57, 97][0] == 71);
    }
    assert(!has_signature(bytes, seq![71u8, 73, 70, 56, 55, 97], 0, 0)) by {
        assert(seq![71u8, 73, 70, 56, 55, 97][0] == 71);
    }
    assert forall|i: int| 0 <= i < 12 && !(4 <= i < 8) implies #[trigger] head_byte(bytes, i) == seq![82u8, 73, 70, 70, 0, 0, 0, 0, 87, 69, 66, 80][i] by {}
}

} // verus!
