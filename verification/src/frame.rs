//! The RGBA8 raster frame shared by every stage, its error type and the
//! pixel-addressing facts the other modules build on.
use crate::raster::{
    cell, mirror_horizontal, mirror_vertical, rotate_cells, turned_extent, turned_source,
};
use crate::text::{decimal, push_decimal};
use vstd::prelude::*;

verus! {

/// Row-major RGBA8 raster, four bytes per pixel.
#[derive(Debug, Clone, PartialEq, Eq)]
pub struct ImageFrame {
    pub width: u32,
    pub height: u32,
    /// Row-major RGBA8 bytes, four bytes per pixel.
    pub pixels: Vec<u8>,
}

/// Errors of the raster core.
#[derive(Debug, Clone, PartialEq, Eq)]
pub enum CoreError {
    Decode(String),
    InvalidFrame { width: u32, height: u32, length: usize },
    Encode(String),
    /// An integer-valued option outside its documented range.
    InvalidAdjustment { name: String, value: i64, minimum: i64, maximum: i64 },
    /// A KI-denoise stage that is not usable; `status` is the visible state.
    Denoise { status: String, reason: String },
    /// A mask that neither a model nor a cached artifact can provide.
    MaskUnavailable { copy_id: String, mask_id: String, status: String },
    /// Re-inferring a subject matte failed.
    MaskInference { reason: String },
}

/// Decimal text of a signed value, with a leading minus when negative.
pub open spec fn signed_decimal(v: int) -> Seq<char> {
    if v < 0 {
        seq!['-'] + decimal((-v) as nat)
    } else {
        decimal(v as nat)
    }
}

/// The human-readable text of an error.
pub open spec fn core_error_text(e: CoreError) -> Seq<char> {
    match e {
        CoreError::Decode(text) => "could not decode raster image: "@ + text@,
        CoreError::InvalidFrame { width, height, length } => "invalid RGBA8 frame dimensions "@ + decimal(
            width as nat,
        ) + "x"@ + decimal(height as nat) + " for "@ + decimal(length as nat) + " bytes"@,
        CoreError::Encode(text) => "could not encode raster image: "@ + text@,
        CoreError::InvalidAdjustment { name, value, minimum, maximum } => "invalid "@ + name@
            + ": must be in "@ + signed_decimal(minimum as int) + "..="@ + signed_decimal(maximum as int)
            + ", got "@ + signed_decimal(value as int),
        CoreError::Denoise { status, reason } => "denoise_ai is "@ + status@ + ": "@ + reason@,
        CoreError::MaskUnavailable { copy_id, mask_id, status } => "mask `"@ + copy_id@ + "/"@ + mask_id@
            + "` is unavailable (status "@ + status@ + ")"@,
        CoreError::MaskInference { reason } => "mask re-inference failed: "@ + reason@,
    }
}

/// Appends the decimal text of `v`, with a leading minus when negative.
pub fn push_signed_decimal(text: &mut String, v: i64)
    ensures
        final(text)@ == old(text)@ + signed_decimal(v as int),
{
    if v < 0 {
        let ghost start = text@;
        text.append("-");
        proof {
            reveal_strlit("-");
        }
        let magnitude: u64 = if v == i64::MIN {
            9223372036854775808u64
        } else {
            (-v) as u64
        };
        push_decimal(text, magnitude);
        proof {
            assert(text@ =~= start + signed_decimal(v as int));
        }
    } else {
        push_decimal(text, v as u64);
    }
}

impl CoreError {
    /// The human-readable text of this error.
    pub fn message(&self) -> (text: String)
        ensures
            text@ == core_error_text(*self),
    {
        match self {
            CoreError::Decode(detail) => {
                let mut text = String::from_str("could not decode raster image: ");
                text.append(detail.as_str());
                text
            },
            CoreError::InvalidFrame { width, height, length } => {
                let mut text = String::from_str("invalid RGBA8 frame dimensions ");
                push_decimal(&mut text, *width as u64);
                text.append("x");
                push_decimal(&mut text, *height as u64);
                text.append(" for ");
                push_decimal(&mut text, *length as u64);
                text.append(" bytes");
                text
            },
            CoreError::Encode(detail) => {
                let mut text = String::from_str("could not encode raster image: ");
                text.append(detail.as_str());
                text
            },
            CoreError::InvalidAdjustment { name, value, minimum, maximum } => {
                let mut text = String::from_str("invalid ");
                text.append(name.as_str());
                text.append(": must be in ");
                push_signed_decimal(&mut text, *minimum);
                text.append("..=");
                push_signed_decimal(&mut text, *maximum);
                text.append(", got ");
                push_signed_decimal(&mut text, *value);
                text
            },
            CoreError::Denoise { status, reason } => {
                let mut text = String::from_str("denoise_ai is ");
                text.append(status.as_str());
                text.append(": ");
                text.append(reason.as_str());
                text
            },
            CoreError::MaskUnavailable { copy_id, mask_id, status } => {
                let mut text = String::from_str("mask `");
                text.append(copy_id.as_str());
                text.append("/");
                text.append(mask_id.as_str());
                text.append("` is unavailable (status ");
                text.append(status.as_str());
                text.append(")");
                text
            },
            CoreError::MaskInference { reason } => {
                let mut text = String::from_str("mask re-inference failed: ");
                text.append(reason.as_str());
                text
            },
        }
    }
}

impl ImageFrame {
    /// The pixel buffer holds exactly `width * height` RGBA8 pixels.
    pub open spec fn wf(&self) -> bool {
        self.pixels@.len() == self.width * self.height * 4
    }

    /// Byte offset of channel `c` of pixel `(x, y)`.
    pub open spec fn offset(&self, x: int, y: int, c: int) -> int {
        (y * self.width + x) * 4 + c
    }

    /// Channel `c` of pixel `(x, y)`.
    pub open spec fn channel(&self, x: int, y: int, c: int) -> u8 {
        self.pixels@[self.offset(x, y, c)]
    }

    /// Builds a frame, rejecting a buffer whose length is not exactly
    /// `width * height * 4` (including products that overflow `usize`).
    pub fn new(width: u32, height: u32, pixels: Vec<u8>) -> (result: Result<ImageFrame, CoreError>)
        ensures
            pixels@.len() == width * height * 4 <==> result is Ok,
            result matches Ok(frame) ==> frame.width == width && frame.height == height
                && frame.pixels@ == pixels@,
            result matches Err(e) ==> e == (CoreError::InvalidFrame {
                width: width,
                height: height,
                length: pixels@.len() as usize,
            }),
    {
        let expected = match (width as usize).checked_mul(height as usize) {
            Some(count) => count.checked_mul(4),
            None => None,
        };
        let matches = match expected {
            Some(value) => value == pixels.len(),
            None => false,
        };
        if !matches {
            proof {
                if pixels@.len() == width * height * 4 {
                    assert(width * height <= width * height * 4) by (nonlinear_arith);
                }
            }
            return Err(CoreError::InvalidFrame { width, height, length: pixels.len() });
        }
        Ok(ImageFrame { width, height, pixels })
    }
}

/// Every in-bounds pixel channel lies inside a well-formed buffer.
pub proof fn lemma_offset_in_bounds(width: int, height: int, x: int, y: int, c: int)
    requires
        0 <= x < width,
        0 <= y < height,
        0 <= c < 4,
    ensures
        0 <= (y * width + x) * 4 + c < width * height * 4,
        (y * width + x) * 4 + c == y * width * 4 + x * 4 + c,
{
    assert(0 <= y * width) by (nonlinear_arith)
        requires
            0 <= y,
            0 <= width,
    ;
    assert(y * width + x < width * height) by (nonlinear_arith)
        requires
            0 <= x < width,
            0 <= y < height,
    ;
    assert((y * width + x) * 4 + c == y * width * 4 + x * 4 + c) by (nonlinear_arith);
}

/// Export container formats.
#[derive(Debug, Clone, Copy, PartialEq, Eq, Structural)]
pub enum ImageFileFormat {
    Png,
    Jpeg,
    WebP,
}

/// ASCII lower-casing of one character (non-ASCII characters are kept).
pub open spec fn ascii_lower(c: char) -> char {
    if 'A' <= c <= 'Z' {
        ((c as u32) + 32) as char
    } else {
        c
    }
}

/// The export format named by a lower-cased extension.
pub open spec fn format_for_lower_extension(ext: Seq<char>) -> Option<ImageFileFormat> {
    if ext == seq!['p', 'n', 'g'] {
        Some(ImageFileFormat::Png)
    } else if ext == seq!['j', 'p', 'g'] || ext == seq!['j', 'p', 'e', 'g'] {
        Some(ImageFileFormat::Jpeg)
    } else if ext == seq!['w', 'e', 'b', 'p'] {
        Some(ImageFileFormat::WebP)
    } else {
        None
    }
}

/// Whether `candidate` equals `ext` after ASCII lower-casing of `candidate`.
fn lower_equals(candidate: &Vec<char>, ext: &[char]) -> (result: bool)
    ensures
        result == (candidate@.map_values(|c: char| ascii_lower(c)) == ext@),
{
    if candidate.len() != ext.len() {
        proof {
            assert(candidate@.map_values(|c: char| ascii_lower(c)).len() != ext@.len());
        }
        return false;
    }
    let mut i: usize = 0;
    while i < candidate.len()
        invariant
            candidate@.len() == ext@.len(),
            i <= candidate@.len(),
            forall|k: int| 0 <= k < i ==> ascii_lower(candidate@[k]) == ext@[k],
        decreases candidate@.len() - i,
    {
        let c = candidate[i];
        let lowered = if 'A' <= c && c <= 'Z' {
            char_from_ascii((c as u8) + 32)
        } else {
            c
        };
        if lowered != ext[i] {
            proof {
                assert(candidate@.map_values(|c: char| ascii_lower(c))[i as int] != ext@[i as int]);
            }
            return false;
        }
        i += 1;
    }
    proof {
        assert(candidate@.map_values(|c: char| ascii_lower(c)) =~= ext@);
    }
    true
}

/// The character of an ASCII code point.
fn char_from_ascii(b: u8) -> (c: char)
    requires
        b < 128,
    ensures
        c == (b as u32) as char,
        c as u32 == b as u32,
{
    b as char
}

/// The characters of `s`, in order.
fn chars_of(s: &str) -> (result: Vec<char>)
    ensures
        result@ == s@,
{
    let mut out: Vec<char> = Vec::new();
    for c in it: s.chars()
        invariant
            out@ == it.seq().take(it.index() as int),
    {
        out.push(c);
    }
    out
}

impl ImageFileFormat {
    /// Parse a file extension (without the leading dot), case-insensitively:
    /// `png`, `jpg`, `jpeg` and `webp`; anything else is `None`.
    pub fn from_extension(extension: &str) -> (result: Option<ImageFileFormat>)
        ensures
            result == format_for_lower_extension(extension@.map_values(|c: char| ascii_lower(c))),
    {
        let chars = chars_of(extension);
        if lower_equals(&chars, &['p', 'n', 'g']) {
            Some(ImageFileFormat::Png)
        } else if lower_equals(&chars, &['j', 'p', 'g']) || lower_equals(&chars, &['j', 'p', 'e', 'g']) {
            Some(ImageFileFormat::Jpeg)
        } else if lower_equals(&chars, &['w', 'e', 'b', 'p']) {
            Some(ImageFileFormat::WebP)
        } else {
            None
        }
    }
}

/// The canonical extension of a format (JPEG is `jpg`).
pub open spec fn spec_default_extension(format: ImageFileFormat) -> Seq<char> {
    match format {
        ImageFileFormat::Png => seq!['p', 'n', 'g'],
        ImageFileFormat::Jpeg => seq!['j', 'p', 'g'],
        ImageFileFormat::WebP => seq!['w', 'e', 'b', 'p'],
    }
}

impl ImageFileFormat {
    /// Canonical file extension (without the leading dot) for this format.
    pub fn default_extension(self) -> (result: &'static str)
        ensures
            result@ == spec_default_extension(self),
    {
        match self {
            ImageFileFormat::Png => {
                proof {
                    reveal_strlit("png");
                }
                "png"
            },
            ImageFileFormat::Jpeg => {
                proof {
                    reveal_strlit("jpg");
                }
                "jpg"
            },
            ImageFileFormat::WebP => {
                proof {
                    reveal_strlit("webp");
                }
                "webp"
            },
        }
    }
}

/// Sample depth of an export.
#[derive(Debug, Clone, Copy, PartialEq, Eq, Structural)]
pub enum BitDepth {
    Eight,
    Sixteen,
}

impl Default for BitDepth {
    fn default() -> (depth: Self)
        ensures
            depth == BitDepth::Eight,
    {
        BitDepth::Eight
    }
}

/// Encoder parameters of an export.
#[derive(Debug, Clone, Copy, PartialEq, Eq, Structural)]
pub struct ExportOptions {
    pub format: ImageFileFormat,
    pub bit_depth: BitDepth,
    pub quality: u8,
    pub dither: bool,
    pub seed: u64,
}

impl ExportOptions {
    /// PNG, 8 bit, quality 90, dithering on, seed 0.
    pub open spec fn spec_default() -> ExportOptions {
        ExportOptions { format: ImageFileFormat::Png, bit_depth: BitDepth::Eight, quality: 90, dither: true, seed: 0 }
    }

    /// Quality must lie in `1..=100`, and only 8-bit export is supported.
    pub fn validate(&self) -> (result: Result<(), CoreError>)
        ensures
            result is Ok <==> 1 <= self.quality <= 100 && self.bit_depth == BitDepth::Eight,
            (self.quality == 0 || self.quality > 100) ==> (result matches Err(CoreError::InvalidAdjustment { name, value, minimum, maximum })
                && name@ == "quality"@ && value == self.quality && minimum == 1 && maximum == 100),
            1 <= self.quality <= 100 && self.bit_depth != BitDepth::Eight ==> result matches Err(CoreError::Encode(_)),
    {
        if self.quality == 0 || self.quality > 100 {
            let result = Err(CoreError::InvalidAdjustment {
                name: String::from_str("quality"),
                value: self.quality as i64,
                minimum: 1,
                maximum: 100,
            });
            proof {
                reveal_strlit("quality");
            }
            return result;
        }
        match self.bit_depth {
            BitDepth::Eight => Ok(()),
            BitDepth::Sixteen => Err(CoreError::Encode(String::from_str("16-bit export is not supported in the MVP"))),
        }
    }
}

impl Default for ExportOptions {
    fn default() -> (options: Self)
        ensures
            options == ExportOptions::spec_default(),
    {
        ExportOptions { format: ImageFileFormat::Png, bit_depth: BitDepth::Eight, quality: 90, dither: true, seed: 0 }
    }
}

/// `frame` cropped to the `w × h` rectangle at `(x, y)`: pixel `(i, j)` of
/// the result is pixel `(x + i, y + j)` of `frame`.
pub open spec fn is_crop_of(out: &ImageFrame, frame: &ImageFrame, x: int, y: int, w: int, h: int) -> bool {
    &&& out.width == w
    &&& out.height == h
    &&& out.wf()
    &&& forall|i: int, j: int, c: int|
        0 <= i < w && 0 <= j < h && 0 <= c < 4 ==> #[trigger] out.channel(i, j, c) == frame.channel(x + i, y + j, c)
}

/// Copies the rows of a `w × h` rectangle at `(x, y)` out of `frame`.
fn copy_rect(frame: &ImageFrame, x: u32, y: u32, w: u32, h: u32) -> (pixels: Vec<u8>)
    requires
        frame.wf(),
        x + w <= frame.width,
        y + h <= frame.height,
    ensures
        pixels@.len() == w * h * 4,
        forall|i: int, j: int, c: int|
            0 <= i < w && 0 <= j < h && 0 <= c < 4 ==> #[trigger] pixels@[(j * w + i) * 4 + c]
                == frame.channel(x + i, y + j, c),
{
    let ghost fw = frame.width as int;
    let ghost fh = frame.height as int;
    proof {
        assert(fw * fh * 4 == frame.pixels@.len());
    }
    let total = frame.pixels.len();
    let mut out: Vec<u8> = Vec::new();
    let mut row: u32 = 0;
    while row < h
        invariant
            frame.wf(),
            fw == frame.width,
            fh == frame.height,
            x + w <= fw,
            y + h <= fh,
            total == fw * fh * 4,
            row <= h,
            out@.len() == row * w * 4,
            forall|i: int, j: int, c: int|
                0 <= i < w && 0 <= j < row && 0 <= c < 4 ==> #[trigger] out@[(j * w + i) * 4 + c]
                    == frame.channel(x + i, y + j, c),
        decreases h - row,
    {
        let ghost before = out@;
        let mut col: u32 = 0;
        while col < w
            invariant
                frame.wf(),
                fw == frame.width,
                fh == frame.height,
                x + w <= fw,
                y + h <= fh,
                total == fw * fh * 4,
                row < h,
                col <= w,
                out@.len() == row * w * 4 + col * 4,
                out@.subrange(0, row * w * 4) == before,
                forall|i: int, c: int|
                    0 <= i < col && 0 <= c < 4 ==> #[trigger] out@[row * w * 4 + i * 4 + c]
                        == frame.channel(x + i, y + row, c),
            decreases w - col,
        {
            let mut c: usize = 0;
            while c < 4
                invariant
                    frame.wf(),
                    fw == frame.width,
                    fh == frame.height,
                    x + w <= fw,
                    y + h <= fh,
                    total == fw * fh * 4,
                    row < h,
                    col < w,
                    c <= 4,
                    out@.len() == row * w * 4 + col * 4 + c,
                    out@.subrange(0, row * w * 4) == before,
                    forall|i: int, cc: int|
                        0 <= i < col && 0 <= cc < 4 ==> #[trigger] out@[row * w * 4 + i * 4 + cc]
                            == frame.channel(x + i, y + row, cc),
                    forall|cc: int| 0 <= cc < c ==> #[trigger] out@[row * w * 4 + col * 4 + cc]
                        == frame.channel(x + col, y + row, cc),
                decreases 4 - c,
            {
                proof {
                    lemma_offset_in_bounds(fw, fh, (x + col) as int, (y + row) as int, c as int);
                }
                let index = ((y + row) as usize * frame.width as usize + (x + col) as usize) * 4 + c;
                out.push(frame.pixels[index]);
                proof {
                    assert(out@.subrange(0, row * w * 4) =~= before);
                }
                c += 1;
            }
            col += 1;
        }
        proof {
            assert forall|i: int, j: int, c: int|
                0 <= i < w && 0 <= j < row + 1 && 0 <= c < 4 implies #[trigger] out@[(j * w + i) * 4 + c]
                    == frame.channel(x + i, y + j, c) by {
                lemma_row_major(w as int, i, j, c);
                if j < row {
                    lemma_row_major_bound(w as int, row as int, i, j, c);
                    assert(out@[(j * w + i) * 4 + c] == out@.subrange(0, row * w * 4)[(j * w + i) * 4 + c]);
                } else {
                    assert((j * w + i) * 4 + c == row * w * 4 + i * 4 + c);
                }
            }
            assert(out@.len() == (row + 1) * w * 4) by (nonlinear_arith)
                requires
                    out@.len() == row * w * 4 + w * 4,
            ;
        }
        row += 1;
    }
    proof {
        assert(row * w * 4 == w * h * 4) by (nonlinear_arith)
            requires
                row == h,
        ;
    }
    out
}

proof fn lemma_row_major(w: int, i: int, j: int, c: int)
    ensures
        (j * w + i) * 4 + c == j * w * 4 + i * 4 + c,
{
    assert((j * w + i) * 4 + c == j * w * 4 + i * 4 + c) by (nonlinear_arith);
}

proof fn lemma_row_major_bound(w: int, row: int, i: int, j: int, c: int)
    requires
        0 <= i < w,
        0 <= j < row,
        0 <= c < 4,
    ensures
        0 <= (j * w + i) * 4 + c < row * w * 4,
{
    assert(0 <= (j * w + i) * 4 + c < row * w * 4) by (nonlinear_arith)
        requires
            0 <= i < w,
            0 <= j < row,
            0 <= c < 4,
    ;
}

/// Crops the `w × h` rectangle at `(x, y)` (which must lie inside `frame`).
pub fn crop_frame(frame: &ImageFrame, x: u32, y: u32, w: u32, h: u32) -> (result: Result<ImageFrame, CoreError>)
    requires
        frame.wf(),
        x + w <= frame.width,
        y + h <= frame.height,
    ensures
        (result matches Ok(out) && is_crop_of(&out, frame, x as int, y as int, w as int, h as int)),
{
    let pixels = copy_rect(frame, x, y, w, h);
    let result = ImageFrame::new(w, h, pixels);
    proof {
        if result is Ok {
            let out = result->Ok_0;
            assert forall|i: int, j: int, c: int|
                0 <= i < w && 0 <= j < h && 0 <= c < 4 implies #[trigger] out.channel(i, j, c) == frame.channel(x + i, y + j, c) by {
                assert(out.channel(i, j, c) == out.pixels@[(j * w + i) * 4 + c]);
            }
        }
    }
    result
}

impl ImageFrame {
    /// Crops the region `(x, y, w, h)`, clamped to the frame bounds, into a
    /// new frame; an empty clamped region is an `InvalidFrame` error.
    pub fn crop_region(&self, x: u32, y: u32, w: u32, h: u32) -> (result: Result<ImageFrame, CoreError>)
        requires
            self.wf(),
        ensures
            ({
                let cx = if x < self.width - 1 { x as int } else if self.width > 0 { self.width - 1 } else { 0 };
                let cy = if y < self.height - 1 { y as int } else if self.height > 0 { self.height - 1 } else { 0 };
                let cw = if w < self.width - cx { w as int } else { self.width - cx };
                let ch = if h < self.height - cy { h as int } else { self.height - cy };
                if cw == 0 || ch == 0 {
                    result == Err::<ImageFrame, CoreError>(CoreError::InvalidFrame { width: cw as u32, height: ch as u32, length: 0 })
                } else {
                    (result matches Ok(out) && is_crop_of(&out, self, cx, cy, cw, ch))
                }
            }),
    {
        let x = if x < self.width.saturating_sub(1) { x } else { self.width.saturating_sub(1) };
        let y = if y < self.height.saturating_sub(1) { y } else { self.height.saturating_sub(1) };
        let w = if w < self.width - x { w } else { self.width - x };
        let h = if h < self.height - y { h } else { self.height - y };
        if w == 0 || h == 0 {
            return Err(CoreError::InvalidFrame { width: w, height: h, length: 0 });
        }
        crop_frame(self, x, y, w, h)
    }
}

/// The default content crop: the largest all-content rectangle, or the full
/// frame when it has no content at all.
pub fn default_content_crop(frame: &ImageFrame) -> (rect: (u32, u32, u32, u32))
    requires
        frame.wf(),
    ensures
        !crate::crop_max_rect::has_content(frame) ==> rect == (0u32, 0u32, frame.width, frame.height),
        crate::crop_max_rect::has_content(frame) ==> crate::crop_max_rect::maximum_content_rect_spec(frame, rect),
{
    match crate::crop_max_rect::maximum_content_rect(frame) {
        Some(rect) => rect,
        None => (0, 0, frame.width, frame.height),
    }
}

/// Turns the frame clockwise by `turn` quarter turns (exact pixel moves, no
/// resampling).
pub fn rotate_quarter_turns(frame: &ImageFrame, turn: u32) -> (out: ImageFrame)
    requires
        frame.wf(),
        turn < 4,
    ensures
        out.wf(),
        (out.width as int, out.height as int) == turned_extent(turn as int, frame.width as int, frame.height as int),
        forall|dx: int, dy: int, c: int|
            0 <= dx < out.width && 0 <= dy < out.height && 0 <= c < 4 ==> #[trigger] out.channel(dx, dy, c) == frame.channel(
                turned_source(turn as int, frame.width as int, frame.height as int, dx, dy).0,
                turned_source(turn as int, frame.width as int, frame.height as int, dx, dy).1,
                c,
            ),
{
    let w = frame.width;
    let h = frame.height;
    let (ow, oh) = if turn % 2 == 1 { (h, w) } else { (w, h) };
    let pixels = rotate_cells(&frame.pixels, w as usize, h as usize, 4, turn);
    let out = ImageFrame { width: ow, height: oh, pixels };
    proof {
        assert forall|dx: int, dy: int, c: int|
            0 <= dx < out.width && 0 <= dy < out.height && 0 <= c < 4 implies #[trigger] out.channel(dx, dy, c) == frame.channel(
                turned_source(turn as int, w as int, h as int, dx, dy).0,
                turned_source(turn as int, w as int, h as int, dx, dy).1,
                c,
            ) by {
            assert(out.offset(dx, dy, c) == cell(ow as int, 4, dx, dy, c));
            let src = turned_source(turn as int, w as int, h as int, dx, dy);
            assert(frame.offset(src.0, src.1, c) == cell(w as int, 4, src.0, src.1, c));
        }
    }
    out
}

/// Mirrors the frame left-right in place.
pub fn flip_horizontal(f: &mut ImageFrame)
    requires
        old(f).wf(),
    ensures
        final(f).width == old(f).width,
        final(f).height == old(f).height,
        final(f).wf(),
        forall|x: int, y: int, c: int|
            0 <= x < old(f).width && 0 <= y < old(f).height && 0 <= c < 4 ==> #[trigger] final(f).channel(x, y, c)
                == old(f).channel(old(f).width - 1 - x, y, c),
{
    let width = f.width as usize;
    let height = f.height as usize;
    mirror_horizontal(&mut f.pixels, width, height, 4);
    proof {
        assert forall|x: int, y: int, c: int|
            0 <= x < f.width && 0 <= y < f.height && 0 <= c < 4 implies #[trigger] f.channel(x, y, c)
                == old(f).channel(old(f).width - 1 - x, y, c) by {
            assert(f.offset(x, y, c) == cell(width as int, 4, x, y, c));
        }
    }
}

/// Mirrors the frame top-bottom in place.
pub fn flip_vertical(f: &mut ImageFrame)
    requires
        old(f).wf(),
    ensures
        final(f).width == old(f).width,
        final(f).height == old(f).height,
        final(f).wf(),
        forall|x: int, y: int, c: int|
            0 <= x < old(f).width && 0 <= y < old(f).height && 0 <= c < 4 ==> #[trigger] final(f).channel(x, y, c)
                == old(f).channel(x, old(f).height - 1 - y, c),
{
    let width = f.width as usize;
    let height = f.height as usize;
    mirror_vertical(&mut f.pixels, width, height, 4);
    proof {
        assert forall|x: int, y: int, c: int|
            0 <= x < f.width && 0 <= y < f.height && 0 <= c < 4 implies #[trigger] f.channel(x, y, c)
                == old(f).channel(x, old(f).height - 1 - y, c) by {
            assert(f.offset(x, y, c) == cell(width as int, 4, x, y, c));
        }
    }
}

/// One xorshift64 step (shifts 13, 7, 17).
pub open spec fn xorshift(state: u64) -> u64 {
    let a = state ^ (state << 13u64);
    let b = a ^ (a >> 7u64);
    b ^ (b << 17u64)
}

/// The dither generator state after `n` steps from `seed`.
pub open spec fn dither_state(seed: u64, n: nat) -> u64
    decreases n,
{
    if n == 0 {
        seed ^ 0x9e3779b97f4a7c15u64
    } else {
        xorshift(dither_state(seed, (n - 1) as nat))
    }
}

/// The number of colour (non-alpha) bytes before byte `i` of an RGBA8 buffer.
pub open spec fn color_rank(i: int) -> int {
    (i / 4) * 3 + i % 4
}

/// A colour byte moved one code down (even state) or up (odd state),
/// saturating at `0` and `255`.
pub open spec fn dithered(value: u8, state: u64) -> u8 {
    if state & 1 == 0 {
        if value == 0 { 0 } else { (value - 1) as u8 }
    } else {
        if value == 255 { 255 } else { (value + 1) as u8 }
    }
}

/// Deterministic one-code stochastic dither of the colour channels of an
/// RGBA8 buffer; alpha bytes are untouched and the generator only advances
/// on colour bytes.
pub fn dither_rgba8(pixels: &mut [u8], seed: u64)
    ensures
        final(pixels)@.len() == old(pixels)@.len(),
        forall|i: int| 0 <= i < old(pixels)@.len() ==> #[trigger] final(pixels)@[i] == if i % 4 == 3 {
            old(pixels)@[i]
        } else {
            dithered(old(pixels)@[i], dither_state(seed, (color_rank(i) + 1) as nat))
        },
{
    let ghost orig = pixels@;
    let mut state: u64 = seed ^ 0x9e3779b97f4a7c15u64;
    let mut index: usize = 0;
    while index < pixels.len()
        invariant
            pixels@.len() == orig.len(),
            index <= orig.len(),
            state == dither_state(seed, color_rank(index as int) as nat),
            forall|i: int| 0 <= i < index ==> #[trigger] pixels@[i] == if i % 4 == 3 {
                orig[i]
            } else {
                dithered(orig[i], dither_state(seed, (color_rank(i) + 1) as nat))
            },
            forall|i: int| index <= i < orig.len() ==> #[trigger] pixels@[i] == orig[i],
        decreases orig.len() - index,
    {
        if index % 4 == 3 {
            proof {
                assert(color_rank(index + 1) == color_rank(index as int));
            }
            index += 1;
            continue;
        }
        state = state ^ (state << 13u64);
        state = state ^ (state >> 7u64);
        state = state ^ (state << 17u64);
        let value = pixels[index];
        let updated = if state & 1 == 0 {
            if value == 0 { 0 } else { value - 1 }
        } else {
            if value == 255 { 255 } else { value + 1 }
        };
        pixels[index] = updated;
        proof {
            assert(color_rank(index + 1) == color_rank(index as int) + 1);
        }
        index += 1;
    }
}

/// Deterministic, dependency-free integer hash producing a `u32`.
pub open spec fn grain_hash_spec(z: u32) -> u32 {
    let z1 = vstd::wrapping::u32_specs::wrapping_add(z, 0x9e3779b9u32);
    let z2 = vstd::wrapping::u32_specs::wrapping_mul(z1 ^ (z1 >> 16u32), 0x85ebca6bu32);
    let z3 = vstd::wrapping::u32_specs::wrapping_mul(z2 ^ (z2 >> 13u32), 0xc2b2ae35u32);
    z3 ^ (z3 >> 16u32)
}

/// Deterministic, dependency-free integer hash producing a `u32`; used to
/// derive per-cell grain noise.
pub fn grain_hash(z: u32) -> (result: u32)
    ensures
        result == grain_hash_spec(z),
{
    let mut z = z.wrapping_add(0x9e3779b9);
    z = (z ^ (z >> 16)).wrapping_mul(0x85ebca6b);
    z = (z ^ (z >> 13)).wrapping_mul(0xc2b2ae35);
    z ^ (z >> 16)
}

/// Dithering moves a colour byte by at most one code, up on an odd
/// generator state and down on an even one, and leaves it in place only
/// where that step would leave `0..=255`.
pub proof fn lemma_dither_moves_one_code(value: u8, state: u64)
    ensures
        value - 1 <= dithered(value, state) <= value + 1,
        state & 1 == 1 ==> dithered(value, state) >= value,
        state & 1 == 0 ==> dithered(value, state) <= value,
        dithered(value, state) == value <==> (state & 1 == 1 && value == 255) || (state & 1 == 0 && value == 0),
{
    assert(state & 1 == 0 || state & 1 == 1) by (bit_vector);
}

} // verus!
