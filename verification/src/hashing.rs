//! BLAKE3 digests of canonical byte messages, and the helpers that build
//! those messages (UTF-8 strings, little-endian integers, separators).
use vstd::prelude::*;

verus! {

/// The lowercase hex rendering of the BLAKE3 hash of `data`.
pub uninterp spec fn blake3_hex(data: Seq<u8>) -> Seq<char>;

/// Calls `blake3::hash` on `data` and renders the hash with
/// `Hash::to_hex`. The contract names the result [`blake3_hex`] of the
/// bytes and states the fixed 64-character length that `to_hex` documents;
/// nothing else about the hash function is claimed.
#[verifier::external_body]
pub(crate) fn blake3_hex_digest(data: &[u8]) -> (hex: String)
    ensures
        hex@ == blake3_hex(data@),
        hex@.len() == 64,
{
    blake3::hash(data).to_hex().to_string()
}

/// The UTF-8 bytes of a character sequence.
pub open spec fn utf8(s: Seq<char>) -> Seq<u8> {
    vstd::utf8::encode_utf8(s)
}

/// Little-endian bytes of a `u32`.
pub open spec fn le_u32(x: u32) -> Seq<u8> {
    seq![(x % 256) as u8, ((x / 256) % 256) as u8, ((x / 65536) % 256) as u8, ((x / 16777216) % 256) as u8]
}

/// Little-endian bytes of a `u64`.
pub open spec fn le_u64(x: u64) -> Seq<u8> {
    le_u32((x % 4294967296) as u32) + le_u32((x / 4294967296) as u32)
}

/// Little-endian two's-complement bytes of an `i32`.
pub open spec fn le_i32(x: i32) -> Seq<u8> {
    le_u32(x as u32)
}

/// Appends `bytes` to `message`.
pub fn push_bytes(message: &mut Vec<u8>, bytes: &[u8])
    ensures
        final(message)@ == old(message)@ + bytes@,
{
    let ghost start = message@;
    let mut i: usize = 0;
    while i < bytes.len()
        invariant
            i <= bytes@.len(),
            message@ == start + bytes@.subrange(0, i as int),
        decreases bytes@.len() - i,
    {
        message.push(bytes[i]);
        proof {
            assert(message@ =~= start + bytes@.subrange(0, i + 1));
        }
        i += 1;
    }
    proof {
        assert(bytes@.subrange(0, bytes@.len() as int) =~= bytes@);
    }
}

/// Appends the UTF-8 bytes of `s` to `message`.
pub fn push_str(message: &mut Vec<u8>, s: &str)
    ensures
        final(message)@ == old(message)@ + utf8(s@),
{
    push_bytes(message, s.as_bytes());
}

/// Appends one byte to `message`.
pub fn push_byte(message: &mut Vec<u8>, byte: u8)
    ensures
        final(message)@ == old(message)@ + seq![byte],
{
    message.push(byte);
    proof {
        assert(final(message)@ =~= old(message)@ + seq![byte]);
    }
}

/// Appends the little-endian bytes of `x` to `message`.
pub fn push_u32_le(message: &mut Vec<u8>, x: u32)
    ensures
        final(message)@ == old(message)@ + le_u32(x),
{
    message.push((x % 256) as u8);
    message.push(((x / 256) % 256) as u8);
    message.push(((x / 65536) % 256) as u8);
    message.push(((x / 16777216) % 256) as u8);
    proof {
        assert(final(message)@ =~= old(message)@ + le_u32(x));
    }
}

/// Appends the little-endian bytes of `x` to `message`.
pub fn push_u64_le(message: &mut Vec<u8>, x: u64)
    ensures
        final(message)@ == old(message)@ + le_u64(x),
{
    push_u32_le(message, (x % 4294967296) as u32);
    push_u32_le(message, (x / 4294967296) as u32);
    proof {
        assert(final(message)@ =~= old(message)@ + le_u64(x));
    }
}

/// Appends the little-endian two's-complement bytes of `x` to `message`.
pub fn push_i32_le(message: &mut Vec<u8>, x: i32)
    ensures
        final(message)@ == old(message)@ + le_i32(x),
{
    push_u32_le(message, x as u32);
}

/// Little-endian bytes tell `u32` values apart.
pub proof fn lemma_le_u32_injective(x: u32, y: u32)
    requires
        le_u32(x) == le_u32(y),
    ensures
        x == y,
{
    assert(le_u32(x)[0] == le_u32(y)[0]);
    assert(le_u32(x)[1] == le_u32(y)[1]);
    assert(le_u32(x)[2] == le_u32(y)[2]);
    assert(le_u32(x)[3] == le_u32(y)[3]);
    assert(x % 256 == y % 256);
    assert((x / 256) % 256 == (y / 256) % 256);
    assert((x / 65536) % 256 == (y / 65536) % 256);
    assert((x / 16777216) % 256 == (y / 16777216) % 256);
    assert(x == y) by (bit_vector)
        requires
            x % 256 == y % 256,
            (x / 256) % 256 == (y / 256) % 256,
            (x / 65536) % 256 == (y / 65536) % 256,
            (x / 16777216) % 256 == (y / 16777216) % 256,
    ;
}

/// Little-endian bytes tell `u64` values apart.
pub proof fn lemma_le_u64_injective(x: u64, y: u64)
    requires
        le_u64(x) == le_u64(y),
    ensures
        x == y,
{
    let lx = le_u32((x % 4294967296) as u32);
    let hx = le_u32((x / 4294967296) as u32);
    let ly = le_u32((y % 4294967296) as u32);
    let hy = le_u32((y / 4294967296) as u32);
    assert(lx =~= le_u64(x).subrange(0, 4));
    assert(ly =~= le_u64(y).subrange(0, 4));
    assert(hx =~= le_u64(x).subrange(4, 8));
    assert(hy =~= le_u64(y).subrange(4, 8));
    lemma_le_u32_injective((x % 4294967296) as u32, (y % 4294967296) as u32);
    lemma_le_u32_injective((x / 4294967296) as u32, (y / 4294967296) as u32);
    vstd::arithmetic::div_mod::lemma_fundamental_div_mod(x as int, 4294967296);
    vstd::arithmetic::div_mod::lemma_fundamental_div_mod(y as int, 4294967296);
}

/// UTF-8 encoding tells character sequences apart.
pub proof fn lemma_utf8_injective(s1: Seq<char>, s2: Seq<char>)
    requires
        utf8(s1) == utf8(s2),
    ensures
        s1 == s2,
{
    vstd::utf8::encode_utf8_decode_utf8(s1);
    vstd::utf8::encode_utf8_decode_utf8(s2);
}

/// Two messages that agree before and after a part agree on that part.
pub proof fn lemma_middle_equal(a: Seq<u8>, x: Seq<u8>, y: Seq<u8>, b: Seq<u8>)
    requires
        a + x + b == a + y + b,
    ensures
        x == y,
{
    let m1 = a + x + b;
    let m2 = a + y + b;
    assert(m1.len() == m2.len());
    assert(m1.len() == (a + x).len() + b.len());
    assert(m2.len() == (a + y).len() + b.len());
    assert((a + x).len() == a.len() + x.len());
    assert((a + y).len() == a.len() + y.len());
    assert(x.len() == y.len());
    assert forall|i: int| 0 <= i < x.len() implies x[i] == y[i] by {
        assert((a + x)[a.len() + i] == x[i]);
        assert((a + y)[a.len() + i] == y[i]);
        assert(m1[a.len() + i] == (a + x)[a.len() + i]);
        assert(m2[a.len() + i] == (a + y)[a.len() + i]);
    }
    assert(x =~= y);
}

} // verus!
