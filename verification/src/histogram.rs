//! The luminance histogram of a frame: 256 bins of pixel counts.
use crate::hashing::{blake3_hex, blake3_hex_digest, le_u32, le_u64, push_u32_le, push_u64_le};
use vstd::prelude::*;

verus! {

/// Luminance histogram of a frame.
#[derive(Debug, Clone, PartialEq, Eq)]
pub struct LuminanceHistogram {
    pub width: u32,
    pub height: u32,
    pub bins: Vec<u64>,
}

/// The sum of the bin counts.
pub open spec fn bins_total(bins: Seq<u64>) -> int
    decreases bins.len(),
{
    if bins.len() == 0 {
        0
    } else {
        bins_total(bins.drop_last()) + bins.last()
    }
}

proof fn lemma_bins_total_prefix(bins: Seq<u64>, i: int)
    requires
        0 <= i <= bins.len(),
    ensures
        0 <= bins_total(bins.subrange(0, i)) <= bins_total(bins),
    decreases bins.len() - i,
{
    if i < bins.len() {
        lemma_bins_total_prefix(bins, i + 1);
        assert(bins.subrange(0, i + 1).drop_last() =~= bins.subrange(0, i));
    } else {
        assert(bins.subrange(0, i) =~= bins);
    }
    lemma_bins_total_nonnegative(bins.subrange(0, i));
}

proof fn lemma_bins_total_nonnegative(bins: Seq<u64>)
    ensures
        bins_total(bins) >= 0,
    decreases bins.len(),
{
    if bins.len() > 0 {
        lemma_bins_total_nonnegative(bins.drop_last());
    }
}

/// The little-endian bytes of every bin, in order.
pub open spec fn bins_bytes(bins: Seq<u64>) -> Seq<u8>
    decreases bins.len(),
{
    if bins.len() == 0 {
        Seq::empty()
    } else {
        bins_bytes(bins.drop_last()) + le_u64(bins.last())
    }
}

/// The message hashed for a histogram digest: width and height
/// little-endian, then every bin.
pub open spec fn histogram_message(width: u32, height: u32, bins: Seq<u64>) -> Seq<u8> {
    le_u32(width) + le_u32(height) + bins_bytes(bins)
}

impl LuminanceHistogram {
    /// The versioned identity of the histogram:
    /// `luminance-histogram-rec709-rgba8:v1:` and the BLAKE3 hex digest of
    /// [`histogram_message`].
    pub fn digest(&self) -> (digest: String)
        ensures
            digest@ == "luminance-histogram-rec709-rgba8:v1:"@ + blake3_hex(
                histogram_message(self.width, self.height, self.bins@),
            ),
    {
        let mut message: Vec<u8> = Vec::new();
        push_u32_le(&mut message, self.width);
        push_u32_le(&mut message, self.height);
        let ghost head = message@;
        let mut i: usize = 0;
        while i < self.bins.len()
            invariant
                i <= self.bins@.len(),
                message@ == head + bins_bytes(self.bins@.subrange(0, i as int)),
            decreases self.bins@.len() - i,
        {
            push_u64_le(&mut message, self.bins[i]);
            proof {
                assert(self.bins@.subrange(0, i + 1).drop_last() =~= self.bins@.subrange(0, i as int));
                assert(message@ =~= head + bins_bytes(self.bins@.subrange(0, i + 1)));
            }
            i += 1;
        }
        proof {
            assert(self.bins@.subrange(0, self.bins@.len() as int) =~= self.bins@);
            assert(message@ =~= histogram_message(self.width, self.height, self.bins@));
        }
        let hex = blake3_hex_digest(message.as_slice());
        let mut digest = String::from_str("luminance-histogram-rec709-rgba8:v1:");
        digest.append(hex.as_str());
        digest
    }

    /// The number of pixels counted: the sum of all bins.
    pub fn sample_count(&self) -> (count: usize)
        requires
            bins_total(self.bins@) <= usize::MAX,
        ensures
            count == bins_total(self.bins@),
    {
        let mut total: u64 = 0;
        let mut i: usize = 0;
        while i < self.bins.len()
            invariant
                i <= self.bins@.len(),
                bins_total(self.bins@) <= usize::MAX,
                total == bins_total(self.bins@.subrange(0, i as int)),
            decreases self.bins@.len() - i,
        {
            proof {
                lemma_bins_total_prefix(self.bins@, i + 1);
                assert(self.bins@.subrange(0, i + 1).drop_last() =~= self.bins@.subrange(0, i as int));
            }
            total = total + self.bins[i];
            i += 1;
        }
        proof {
            assert(self.bins@.subrange(0, self.bins@.len() as int) =~= self.bins@);
        }
        total as usize
    }
}

} // verus!
