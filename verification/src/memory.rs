//! Memory budgets for large RAW decodes and mask rasterizations.
//!
//! Before allocating large buffers callers check against a [`MemoryBudget`]
//! so that oversized inputs fail fast with a clear error instead of an
//! out-of-memory abort inside a decoder or rasterizer.
use crate::text::{decimal, push_decimal};
use vstd::prelude::*;

verus! {

/// Configurable memory budget for decode and mask allocation.
#[derive(Debug, Clone, Copy, PartialEq, Eq, Structural)]
pub struct MemoryBudget {
    /// Maximum number of source pixels accepted for a single RAW decode.
    pub max_raw_pixels: u64,
    /// Maximum number of pixels accepted for a single mask rasterization.
    pub max_mask_pixels: u64,
    /// Maximum single-allocation size in bytes.
    pub max_alloc_bytes: u64,
}

/// Error returned when an allocation would exceed the configured budget.
#[derive(Debug, Clone, Copy, PartialEq, Eq, Structural)]
pub enum MemoryBudgetError {
    Overflow,
    RawPixelsExceeded { required: u64, limit: u64 },
    MaskPixelsExceeded { required: u64, limit: u64 },
    AllocExceeded { required: u64, limit: u64 },
}

/// The outcome of a decode-budget check, computed over mathematical integers.
pub open spec fn decode_check(
    budget: MemoryBudget,
    width: int,
    height: int,
    channels: int,
    bytes_per_channel: int,
) -> Result<u64, MemoryBudgetError> {
    let pixels = width * height;
    if pixels > u64::MAX {
        Err(MemoryBudgetError::Overflow)
    } else if pixels > budget.max_raw_pixels {
        Err(MemoryBudgetError::RawPixelsExceeded {
            required: pixels as u64,
            limit: budget.max_raw_pixels,
        })
    } else if pixels * channels > u64::MAX || pixels * channels * bytes_per_channel > u64::MAX {
        Err(MemoryBudgetError::Overflow)
    } else if pixels * channels * bytes_per_channel > budget.max_alloc_bytes {
        Err(MemoryBudgetError::AllocExceeded {
            required: (pixels * channels * bytes_per_channel) as u64,
            limit: budget.max_alloc_bytes,
        })
    } else {
        Ok((pixels * channels * bytes_per_channel) as u64)
    }
}

/// The outcome of a mask-budget check (two bytes per `u16` matte sample).
pub open spec fn mask_check(budget: MemoryBudget, width: int, height: int) -> Result<
    u64,
    MemoryBudgetError,
> {
    let pixels = width * height;
    if pixels > u64::MAX {
        Err(MemoryBudgetError::Overflow)
    } else if pixels > budget.max_mask_pixels {
        Err(MemoryBudgetError::MaskPixelsExceeded {
            required: pixels as u64,
            limit: budget.max_mask_pixels,
        })
    } else if pixels * 2 > u64::MAX {
        Err(MemoryBudgetError::Overflow)
    } else if pixels * 2 > budget.max_alloc_bytes {
        Err(MemoryBudgetError::AllocExceeded {
            required: (pixels * 2) as u64,
            limit: budget.max_alloc_bytes,
        })
    } else {
        Ok((pixels * 2) as u64)
    }
}

/// Whether every character is an ASCII decimal digit.
pub open spec fn all_digits(s: Seq<char>) -> bool {
    forall|i: int| 0 <= i < s.len() ==> '0' <= #[trigger] s[i] <= '9'
}

/// The value of a string of decimal digits.
pub open spec fn digits_value(s: Seq<char>) -> nat
    decreases s.len(),
{
    if s.len() == 0 {
        0
    } else {
        digits_value(s.drop_last()) * 10 + (s.last() as nat - '0' as nat) as nat
    }
}

/// The digits of an unsigned decimal: the text without an optional
/// leading `+`.
pub open spec fn unsigned_digits(text: Seq<char>) -> Seq<char> {
    if text.len() > 0 && text[0] == '+' {
        text.drop_first()
    } else {
        text
    }
}

/// The value of `text` read as a `u64` the way the standard library
/// parses one: an optional `+` and at least one decimal digit, nothing
/// else, and a value that fits.
pub open spec fn parsed_u64(text: Seq<char>) -> Option<u64> {
    let digits = unsigned_digits(text);
    if digits.len() > 0 && all_digits(digits) && digits_value(digits) <= u64::MAX {
        Some(digits_value(digits) as u64)
    } else {
        None
    }
}

proof fn lemma_digits_value_grows(s: Seq<char>, i: int)
    requires
        all_digits(s),
        0 <= i <= s.len(),
    ensures
        digits_value(s.subrange(0, i)) <= digits_value(s),
    decreases s.len() - i,
{
    if i < s.len() {
        lemma_digits_value_grows(s, i + 1);
        assert(s.subrange(0, i + 1).drop_last() =~= s.subrange(0, i));
    } else {
        assert(s.subrange(0, i) =~= s);
    }
}

/// Reads `text` as a `u64` (an optional `+`, then decimal digits only).
pub fn parse_u64(text: &str) -> (value: Option<u64>)
    ensures
        value == parsed_u64(text@),
{
    let n = text.unicode_len();
    let mut start: usize = 0;
    if n > 0 && text.get_char(0) == '+' {
        start = 1;
    }
    let ghost digits = unsigned_digits(text@);
    proof {
        if start == 1 {
            assert(digits =~= text@.subrange(1, n as int));
        } else {
            assert(digits =~= text@.subrange(0, n as int));
        }
    }
    if start == n {
        return None;
    }
    let mut value: u64 = 0;
    let mut i: usize = start;
    while i < n
        invariant
            start <= i <= n,
            n == text@.len(),
            start < n,
            digits == text@.subrange(start as int, n as int),
            digits == unsigned_digits(text@),
            forall|k: int| 0 <= k < i - start ==> '0' <= #[trigger] digits[k] <= '9',
            value == digits_value(digits.subrange(0, i - start)),
        decreases n - i,
    {
        let c = text.get_char(i);
        proof {
            assert(c == digits[i - start]);
        }
        if !('0' <= c && c <= '9') {
            proof {
                assert(!('0' <= digits[i - start] <= '9'));
                assert(!all_digits(digits));
            }
            return None;
        }
        let d = (c as u32 - '0' as u32) as u64;
        proof {
            assert(digits.subrange(0, i - start + 1).drop_last() =~= digits.subrange(0, i - start));
            assert(digits_value(digits.subrange(0, i - start + 1)) == value * 10 + d);
        }
        if value > (u64::MAX - d) / 10 {
            proof {
                assert(value * 10 + d > u64::MAX) by (nonlinear_arith)
                    requires
                        value > (u64::MAX - d) / 10,
                        d <= 9,
                ;
                if all_digits(digits) {
                    lemma_digits_value_grows(digits, i - start + 1);
                    assert(digits_value(digits) > u64::MAX);
                }
            }
            return None;
        }
        proof {
            assert(value * 10 + d <= u64::MAX) by (nonlinear_arith)
                requires
                    value <= (u64::MAX - d) / 10,
                    d <= 9,
            ;
        }
        value = value * 10 + d;
        i += 1;
    }
    proof {
        assert(digits.subrange(0, n - start) =~= digits);
    }
    Some(value)
}

/// A budget limit from its setting: the setting's value when it is a
/// valid positive integer, otherwise `fallback`.
pub open spec fn limit_from(setting: Option<Seq<char>>, fallback: u64) -> u64 {
    match setting {
        Some(text) => match parsed_u64(text) {
            Some(value) => if value > 0 { value } else { fallback },
            None => fallback,
        },
        None => fallback,
    }
}

fn limit_from_setting(setting: Option<&str>, fallback: u64) -> (limit: u64)
    ensures
        limit == limit_from(match setting { Some(t) => Some(t@), None => None }, fallback),
{
    match setting {
        Some(text) => match parse_u64(text) {
            Some(value) => if value > 0 { value } else { fallback },
            None => fallback,
        },
        None => fallback,
    }
}

impl MemoryBudget {
    /// 200 MP RAW, 100 MP masks, ~2.4 GB single-allocation cap.
    pub open spec fn spec_default() -> MemoryBudget {
        MemoryBudget {
            max_raw_pixels: 200_000_000,
            max_mask_pixels: 100_000_000,
            max_alloc_bytes: 2_400_000_000,
        }
    }

    /// The budget configured by the three settings for RAW pixels, mask
    /// pixels and single-allocation bytes (each absent when not set): each
    /// limit is its setting's value when that is a valid positive integer,
    /// otherwise the default limit.
    pub fn from_settings(raw_pixels: Option<&str>, mask_pixels: Option<&str>, alloc_bytes: Option<&str>) -> (budget: MemoryBudget)
        ensures
            budget.max_raw_pixels == limit_from(match raw_pixels { Some(t) => Some(t@), None => None }, 200_000_000),
            budget.max_mask_pixels == limit_from(match mask_pixels { Some(t) => Some(t@), None => None }, 100_000_000),
            budget.max_alloc_bytes == limit_from(match alloc_bytes { Some(t) => Some(t@), None => None }, 2_400_000_000),
    {
        MemoryBudget {
            max_raw_pixels: limit_from_setting(raw_pixels, 200_000_000),
            max_mask_pixels: limit_from_setting(mask_pixels, 100_000_000),
            max_alloc_bytes: limit_from_setting(alloc_bytes, 2_400_000_000),
        }
    }

    /// Checks that a RAW decode of `width × height` with `channels ×
    /// bytes_per_channel` bytes per pixel fits the budget; returns the
    /// required bytes on success.
    pub fn check_decode(&self, width: u64, height: u64, channels: u32, bytes_per_channel: u32)
        -> (result: Result<u64, MemoryBudgetError>)
        ensures
            result == decode_check(*self, width as int, height as int, channels as int, bytes_per_channel as int),
    {
        let pixels = match width.checked_mul(height) {
            Some(value) => value,
            None => return Err(MemoryBudgetError::Overflow),
        };
        if pixels > self.max_raw_pixels {
            return Err(MemoryBudgetError::RawPixelsExceeded { required: pixels, limit: self.max_raw_pixels });
        }
        let with_channels = match pixels.checked_mul(channels as u64) {
            Some(value) => value,
            None => {
                proof {
                    assert(pixels * channels > u64::MAX);
                }
                return Err(MemoryBudgetError::Overflow);
            },
        };
        let bytes = match with_channels.checked_mul(bytes_per_channel as u64) {
            Some(value) => value,
            None => return Err(MemoryBudgetError::Overflow),
        };
        if bytes > self.max_alloc_bytes {
            return Err(MemoryBudgetError::AllocExceeded { required: bytes, limit: self.max_alloc_bytes });
        }
        Ok(bytes)
    }

    /// Checks that a mask rasterization of `width × height` (u16 matte) fits
    /// the budget; returns the required bytes on success.
    pub fn check_mask(&self, width: u64, height: u64) -> (result: Result<u64, MemoryBudgetError>)
        ensures
            result == mask_check(*self, width as int, height as int),
    {
        let pixels = match width.checked_mul(height) {
            Some(value) => value,
            None => return Err(MemoryBudgetError::Overflow),
        };
        if pixels > self.max_mask_pixels {
            return Err(MemoryBudgetError::MaskPixelsExceeded { required: pixels, limit: self.max_mask_pixels });
        }
        let bytes = match pixels.checked_mul(2) {
            Some(value) => value,
            None => return Err(MemoryBudgetError::Overflow),
        };
        if bytes > self.max_alloc_bytes {
            return Err(MemoryBudgetError::AllocExceeded { required: bytes, limit: self.max_alloc_bytes });
        }
        Ok(bytes)
    }
}

impl Default for MemoryBudget {
    fn default() -> (budget: Self)
        ensures
            budget == MemoryBudget::spec_default(),
    {
        MemoryBudget { max_raw_pixels: 200_000_000, max_mask_pixels: 100_000_000, max_alloc_bytes: 2_400_000_000 }
    }
}

impl MemoryBudgetError {
    /// The allocation size (pixels or bytes) that triggered the rejection.
    pub open spec fn spec_required(self) -> u64 {
        match self {
            MemoryBudgetError::Overflow => 0,
            MemoryBudgetError::RawPixelsExceeded { required, .. } => required,
            MemoryBudgetError::MaskPixelsExceeded { required, .. } => required,
            MemoryBudgetError::AllocExceeded { required, .. } => required,
        }
    }

    /// The budget limit that was exceeded.
    pub open spec fn spec_limit(self) -> u64 {
        match self {
            MemoryBudgetError::Overflow => 0,
            MemoryBudgetError::RawPixelsExceeded { limit, .. } => limit,
            MemoryBudgetError::MaskPixelsExceeded { limit, .. } => limit,
            MemoryBudgetError::AllocExceeded { limit, .. } => limit,
        }
    }

    pub fn required(&self) -> (value: u64)
        ensures
            value == self.spec_required(),
    {
        match self {
            MemoryBudgetError::Overflow => 0,
            MemoryBudgetError::RawPixelsExceeded { required, .. } => *required,
            MemoryBudgetError::MaskPixelsExceeded { required, .. } => *required,
            MemoryBudgetError::AllocExceeded { required, .. } => *required,
        }
    }

    /// The human-readable description of the rejection.
    pub open spec fn text(self) -> Seq<char> {
        match self {
            MemoryBudgetError::Overflow => "memory budget overflow while computing allocation size"@,
            MemoryBudgetError::RawPixelsExceeded { required, limit } => "RAW decode pixels "@ + decimal(required as nat)
                + " exceed budget limit "@ + decimal(limit as nat),
            MemoryBudgetError::MaskPixelsExceeded { required, limit } => "mask pixels "@ + decimal(required as nat)
                + " exceed budget limit "@ + decimal(limit as nat),
            MemoryBudgetError::AllocExceeded { required, limit } => "allocation "@ + decimal(required as nat)
                + " bytes exceeds budget limit "@ + decimal(limit as nat),
        }
    }

    /// The human-readable description of the rejection.
    pub fn message(&self) -> (text: String)
        ensures
            text@ == self.text(),
    {
        let (head, required, middle, limit) = match self {
            MemoryBudgetError::Overflow => {
                return String::from_str("memory budget overflow while computing allocation size");
            },
            MemoryBudgetError::RawPixelsExceeded { required, limit } => (
                "RAW decode pixels ",
                *required,
                " exceed budget limit ",
                *limit,
            ),
            MemoryBudgetError::MaskPixelsExceeded { required, limit } => (
                "mask pixels ",
                *required,
                " exceed budget limit ",
                *limit,
            ),
            MemoryBudgetError::AllocExceeded { required, limit } => (
                "allocation ",
                *required,
                " bytes exceeds budget limit ",
                *limit,
            ),
        };
        let mut text = String::from_str(head);
        push_decimal(&mut text, required);
        text.append(middle);
        push_decimal(&mut text, limit);
        text
    }

    pub fn limit(&self) -> (value: u64)
        ensures
            value == self.spec_limit(),
    {
        match self {
            MemoryBudgetError::Overflow => 0,
            MemoryBudgetError::RawPixelsExceeded { limit, .. } => *limit,
            MemoryBudgetError::MaskPixelsExceeded { limit, .. } => *limit,
            MemoryBudgetError::AllocExceeded { limit, .. } => *limit,
        }
    }
}

/// Every successful check is within the budget it was made against: a
/// decode that is accepted never exceeds the pixel cap nor the byte cap.
pub proof fn lemma_accepted_decode_fits(
    budget: MemoryBudget,
    width: u64,
    height: u64,
    channels: u32,
    bytes_per_channel: u32,
)
    requires
        decode_check(budget, width as int, height as int, channels as int, bytes_per_channel as int) is Ok,
    ensures
        width * height <= budget.max_raw_pixels,
        decode_check(budget, width as int, height as int, channels as int, bytes_per_channel as int)->Ok_0
            == width * height * channels * bytes_per_channel,
        width * height * channels * bytes_per_channel <= budget.max_alloc_bytes,
{
}

/// A mask check accepts exactly the masks within both the mask-pixel cap and
/// the byte cap, and then reports two bytes per pixel; a mask over the
/// mask-pixel cap is refused as such, naming its pixels and that cap,
/// whatever the RAW-pixel cap is.
pub proof fn lemma_mask_check_decides(budget: MemoryBudget, width: u64, height: u64)
    ensures
        mask_check(budget, width as int, height as int) is Ok <==> (width * height <= budget.max_mask_pixels && 2 * (width
            * height) <= budget.max_alloc_bytes),
        mask_check(budget, width as int, height as int) is Ok ==> mask_check(budget, width as int, height as int)->Ok_0 == 2
            * (width * height),
        budget.max_mask_pixels < width * height <= u64::MAX ==> mask_check(budget, width as int, height as int)
            == Err::<u64, MemoryBudgetError>(
            MemoryBudgetError::MaskPixelsExceeded { required: (width * height) as u64, limit: budget.max_mask_pixels },
        ),
        width * height <= budget.max_mask_pixels && budget.max_alloc_bytes < 2 * (width * height) <= u64::MAX ==> mask_check(
            budget,
            width as int,
            height as int,
        ) == Err::<u64, MemoryBudgetError>(
            MemoryBudgetError::AllocExceeded { required: (2 * (width * height)) as u64, limit: budget.max_alloc_bytes },
        ),
{
}

/// A decode check accepts exactly the decodes within both the RAW-pixel cap
/// and the byte cap (their pixel-channel count within `u64`), and then
/// reports the bytes they need; a decode over
/// the RAW-pixel cap is refused as such, naming its pixels and that cap,
/// whatever the mask-pixel cap is.
pub proof fn lemma_decode_check_decides(budget: MemoryBudget, width: u64, height: u64, channels: u32, bytes_per_channel: u32)
    ensures
        decode_check(budget, width as int, height as int, channels as int, bytes_per_channel as int) is Ok <==> (width
            * height <= budget.max_raw_pixels && width * height * channels <= u64::MAX && width * height * channels
            * bytes_per_channel <= budget.max_alloc_bytes),
        decode_check(budget, width as int, height as int, channels as int, bytes_per_channel as int) is Ok ==> decode_check(
            budget,
            width as int,
            height as int,
            channels as int,
            bytes_per_channel as int,
        )->Ok_0 == width * height * channels * bytes_per_channel,
        budget.max_raw_pixels < width * height <= u64::MAX ==> decode_check(
            budget,
            width as int,
            height as int,
            channels as int,
            bytes_per_channel as int,
        ) == Err::<u64, MemoryBudgetError>(
            MemoryBudgetError::RawPixelsExceeded { required: (width * height) as u64, limit: budget.max_raw_pixels },
        ),
{
}

} // verus!
