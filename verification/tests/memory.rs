use lumina_core::memory::{parse_u64, MemoryBudget, MemoryBudgetError};

#[test]
fn default_budget_accepts_normal_sizes() {
    let budget = MemoryBudget::default();
    let bytes = budget
        .check_decode(6000, 4000, 3, 2)
        .expect("a 24 MP 16-bit RAW fits the default budget");
    assert_eq!(bytes, 6000 * 4000 * 3 * 2);
}

#[test]
fn decode_rejects_too_many_pixels() {
    let budget = MemoryBudget::default();
    let error = budget
        .check_decode(20_000, 20_000, 3, 2)
        .expect_err("400 MP exceeds the 200 MP raw-pixel cap");
    assert!(matches!(error, MemoryBudgetError::RawPixelsExceeded { .. }));
    assert_eq!(error.limit(), 200_000_000);
}

#[test]
fn decode_rejects_too_many_bytes() {
    let budget = MemoryBudget {
        max_raw_pixels: u64::MAX,
        max_mask_pixels: u64::MAX,
        max_alloc_bytes: 1_000,
    };
    let error = budget
        .check_decode(100, 100, 3, 2)
        .expect_err("60 KB exceeds the 1 KB alloc cap");
    assert!(matches!(error, MemoryBudgetError::AllocExceeded { .. }));
    assert_eq!(error.required(), 60_000);
}

#[test]
fn mask_rejects_too_many_pixels() {
    let budget = MemoryBudget::default();
    let error = budget
        .check_mask(20_000, 20_000)
        .expect_err("400 MP exceeds the 100 MP mask-pixel cap");
    assert!(matches!(error, MemoryBudgetError::MaskPixelsExceeded { .. }));
    assert_eq!(error.limit(), 100_000_000);
}

#[test]
fn mask_accepts_normal_sizes() {
    let budget = MemoryBudget::default();
    let bytes = budget.check_mask(1920, 1080).expect("HD mask fits");
    assert_eq!(bytes, 1920 * 1080 * 2);
}

#[test]
fn decode_overflow_is_reported() {
    let budget = MemoryBudget {
        max_raw_pixels: u64::MAX,
        max_mask_pixels: u64::MAX,
        max_alloc_bytes: u64::MAX,
    };
    assert_eq!(budget.check_decode(u64::MAX, 2, 1, 1), Err(MemoryBudgetError::Overflow));
    assert_eq!(budget.check_decode(u64::MAX / 2, 1, 4, 1), Err(MemoryBudgetError::Overflow));
}

#[test]
fn accepted_decode_returns_exact_bytes() {
    let budget = MemoryBudget::default();
    assert_eq!(budget.check_decode(100, 50, 4, 1), Ok(20_000));
}

#[test]
fn budget_error_messages_render_numbers() {
    assert_eq!(
        MemoryBudgetError::RawPixelsExceeded { required: 400_000_000, limit: 200_000_000 }.message(),
        "RAW decode pixels 400000000 exceed budget limit 200000000"
    );
    assert_eq!(
        MemoryBudgetError::AllocExceeded { required: 60_000, limit: 1_000 }.message(),
        "allocation 60000 bytes exceeds budget limit 1000"
    );
    assert_eq!(
        MemoryBudgetError::MaskPixelsExceeded { required: 0, limit: 7 }.message(),
        "mask pixels 0 exceed budget limit 7"
    );
    assert_eq!(
        MemoryBudgetError::Overflow.message(),
        "memory budget overflow while computing allocation size"
    );
}

#[test]
fn settings_parse_to_limits_and_fall_back_to_defaults() {
    let budget = MemoryBudget::from_settings(Some("12345"), Some("not-a-number"), Some("999"));
    assert_eq!(budget.max_raw_pixels, 12345);
    assert_eq!(budget.max_mask_pixels, 100_000_000);
    assert_eq!(budget.max_alloc_bytes, 999);
    assert_eq!(MemoryBudget::from_settings(None, None, None), MemoryBudget::default());
    let zero = MemoryBudget::from_settings(Some("0"), Some("+7"), Some("18446744073709551616"));
    assert_eq!(zero.max_raw_pixels, 200_000_000, "zero is not a positive limit");
    assert_eq!(zero.max_mask_pixels, 7);
    assert_eq!(zero.max_alloc_bytes, 2_400_000_000, "a value beyond u64 falls back");
}

#[test]
fn u64_text_is_read_like_the_standard_library() {
    for text in ["0", "1", "+42", "007", "18446744073709551615", "", "+", "-1", " 1", "1 ", "1a", "18446744073709551616"] {
        assert_eq!(parse_u64(text), text.parse::<u64>().ok(), "{text:?}");
    }
}
