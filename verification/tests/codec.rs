use lumina_core::codec::{decode_webp, guess_raster_format, rgb_bytes, RasterFormat};
use lumina_core::frame::{BitDepth, CoreError, ExportOptions, ImageFileFormat, ImageFrame};
use lumina_core::memory::MemoryBudget;

fn gradient(w: u32, h: u32) -> ImageFrame {
    let mut pixels = Vec::new();
    for i in 0..(w * h) {
        pixels.extend_from_slice(&[(i * 7) as u8, (i * 13) as u8, (i * 29) as u8, 255]);
    }
    ImageFrame::new(w, h, pixels).unwrap()
}

#[test]
fn png_roundtrip_is_lossless() {
    let frame = gradient(5, 3);
    let png = frame.encode(ImageFileFormat::Png).unwrap();
    assert_eq!(&png[1..4], b"PNG");
    let decoded = ImageFrame::decode_with_budget(&png, &MemoryBudget::default()).unwrap();
    assert_eq!(decoded, frame);
}

#[test]
fn jpeg_export_drops_alpha_and_decodes_to_the_same_size() {
    let frame = gradient(8, 8);
    let jpeg = frame.encode(ImageFileFormat::Jpeg).unwrap();
    assert_eq!(&jpeg[0..2], &[0xFF, 0xD8]);
    let decoded = ImageFrame::decode_with_budget(&jpeg, &MemoryBudget::default()).unwrap();
    assert_eq!((decoded.width, decoded.height), (8, 8));
    assert!(decoded.pixels.chunks_exact(4).all(|p| p[3] == 255));
}

#[test]
fn lossy_webp_quantizes_colour_but_not_alpha() {
    let mut pixels = Vec::new();
    for i in 0..4u8 {
        pixels.extend_from_slice(&[i * 10 + 7, 255, 3, 100 + i]);
    }
    let frame = ImageFrame::new(2, 2, pixels).unwrap();
    let options = ExportOptions { format: ImageFileFormat::WebP, quality: 50, dither: false, ..ExportOptions::default() };
    let webp = frame.encode_with_options(options).unwrap();
    let decoded = decode_webp(&webp, &MemoryBudget::default()).unwrap();
    // step = (101 - 50) / 10 = 5
    let expected: Vec<u8> = frame
        .pixels
        .iter()
        .enumerate()
        .map(|(i, v)| if i % 4 == 3 { *v } else { (v / 5) * 5 })
        .collect();
    assert_eq!(decoded.pixels, expected);
}

#[test]
fn invalid_quality_and_bit_depth_are_refused() {
    let frame = gradient(2, 2);
    let bad_quality = ExportOptions { quality: 0, ..ExportOptions::default() };
    assert!(matches!(
        frame.encode_with_options(bad_quality),
        Err(CoreError::InvalidAdjustment { value: 0, minimum: 1, maximum: 100, .. })
    ));
    let sixteen = ExportOptions { bit_depth: BitDepth::Sixteen, ..ExportOptions::default() };
    assert!(matches!(frame.encode_with_options(sixteen), Err(CoreError::Encode(_))));
}

#[test]
fn decode_checks_the_budget_before_decoding() {
    let png = gradient(20, 10).encode(ImageFileFormat::Png).unwrap();
    let tight = MemoryBudget { max_raw_pixels: 100, max_mask_pixels: 100, max_alloc_bytes: 1_000_000 };
    match ImageFrame::decode_with_budget(&png, &tight) {
        Err(CoreError::Decode(message)) => assert_eq!(
            message,
            "image 20x10 exceeds the decode memory budget: RAW decode pixels 200 exceed budget limit 100"
        ),
        other => panic!("unexpected result {other:?}"),
    }
}

#[test]
fn dithered_export_differs_from_plain_export() {
    let frame = gradient(6, 6);
    let plain = frame.encode(ImageFileFormat::Png).unwrap();
    let dithered = frame.encode_with_options(ExportOptions::default()).unwrap();
    assert_ne!(plain, dithered);
    let again = frame.encode_with_options(ExportOptions::default()).unwrap();
    assert_eq!(dithered, again, "dithering is deterministic for a fixed seed");
}

#[test]
fn rgb_bytes_drop_every_fourth_byte() {
    assert_eq!(rgb_bytes(&[1, 2, 3, 4, 5, 6, 7, 8]), vec![1, 2, 3, 5, 6, 7]);
    assert_eq!(rgb_bytes(&[]), Vec::<u8>::new());
}

#[test]
fn formats_are_recognised_by_their_leading_bytes() {
    let frame = ImageFrame::new(1, 1, vec![1, 2, 3, 255]).unwrap();
    let png = frame.encode(ImageFileFormat::Png).unwrap();
    let jpeg = frame.encode(ImageFileFormat::Jpeg).unwrap();
    let webp = frame.encode(ImageFileFormat::WebP).unwrap();
    assert_eq!(guess_raster_format(&png), Some(RasterFormat::Png));
    assert_eq!(guess_raster_format(&jpeg), Some(RasterFormat::Jpeg));
    assert_eq!(guess_raster_format(&webp), Some(RasterFormat::WebP));
    assert_eq!(guess_raster_format(b"GIF89a......"), Some(RasterFormat::Gif));
    assert_eq!(guess_raster_format(b"BM"), Some(RasterFormat::Bmp));
    assert_eq!(guess_raster_format(b"P6 1 1 255"), Some(RasterFormat::Pnm));
    assert_eq!(guess_raster_format(b"\0\0\0\0ftypavif"), Some(RasterFormat::Avif));
    assert_eq!(guess_raster_format(b"RIFF1234WEBQ"), None);
    assert_eq!(guess_raster_format(b""), None);
    assert_eq!(guess_raster_format(b"hello"), None);
}

#[test]
fn unknown_and_undecoded_formats_are_refused_with_image_texts() {
    let budget = MemoryBudget::default();
    assert_eq!(
        ImageFrame::decode_with_budget(b"hello", &budget),
        Err(CoreError::Decode("The image format could not be determined".into()))
    );
    assert_eq!(
        ImageFrame::decode_with_budget(b"GIF89a\x01\x00\x01\x00", &budget),
        Err(CoreError::Decode("The image format Gif is not supported".into()))
    );
}
