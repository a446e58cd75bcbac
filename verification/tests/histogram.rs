use lumina_core::histogram::LuminanceHistogram;

fn histogram(width: u32, height: u32, filled: &[(usize, u64)]) -> LuminanceHistogram {
    let mut bins = vec![0u64; 256];
    for &(bin, count) in filled {
        bins[bin] = count;
    }
    LuminanceHistogram { width, height, bins }
}

#[test]
fn sample_count_sums_the_bins() {
    assert_eq!(histogram(2, 1, &[(3, 1), (200, 1)]).sample_count(), 2);
    assert_eq!(histogram(0, 0, &[]).sample_count(), 0);
    assert_eq!(histogram(10, 10, &[(0, 40), (255, 60)]).sample_count(), 100);
}

#[test]
fn digest_has_versioned_prefix_and_hex_body() {
    let digest = histogram(2, 1, &[(3, 1), (200, 1)]).digest();
    let body = digest.strip_prefix("luminance-histogram-rec709-rgba8:v1:").unwrap();
    assert_eq!(body.len(), 64);
    assert!(body.chars().all(|c| c.is_ascii_hexdigit()));
}

#[test]
fn digest_tracks_bins_and_geometry() {
    let base = histogram(2, 1, &[(3, 1), (200, 1)]);
    let moved = histogram(2, 1, &[(3, 1), (201, 1)]);
    let tall = histogram(1, 2, &[(3, 1), (200, 1)]);
    assert_ne!(base.digest(), moved.digest());
    assert_ne!(base.digest(), tall.digest());
    assert_eq!(base.digest(), histogram(2, 1, &[(3, 1), (200, 1)]).digest());
}

#[test]
fn digest_hashes_geometry_then_bins_little_endian() {
    let h = histogram(2, 1, &[(3, 1)]);
    let mut message = Vec::new();
    message.extend_from_slice(&2u32.to_le_bytes());
    message.extend_from_slice(&1u32.to_le_bytes());
    for bin in &h.bins {
        message.extend_from_slice(&bin.to_le_bytes());
    }
    let expected = format!("luminance-histogram-rec709-rgba8:v1:{}", blake3::hash(&message).to_hex());
    assert_eq!(h.digest(), expected);
}
