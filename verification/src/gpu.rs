use vstd::prelude::*;
use vstd::endian::{endianness, Endian};

verus! {

/// Number of invocations in one compute workgroup of the simulation shaders.
pub const WORKGROUP_SIZE: u32 = 256;

/// Number of workgroups to dispatch so that every particle gets one shader
/// invocation: `num_particles / 256` rounded up.
pub fn workgroup_count(num_particles: u32) -> (n: u32)
    requires
        num_particles + 255 <= u32::MAX,
    ensures
        n == (num_particles + 255) / 256,
        n * 256 >= num_particles,
        n == 0 || (n - 1) * 256 < num_particles,
{
    let n = (num_particles + 255) / WORKGROUP_SIZE;
    proof {
        let p = num_particles as int;
        assert(n * 256 >= p && (n == 0 || (n - 1) * 256 < p)) by (nonlinear_arith)
            requires
                n == (p + 255) / 256,
                p >= 0,
        ;
    }
    n
}

/// The four bytes of `x`, least significant first.
pub open spec fn u32_le_bytes(x: u32) -> Seq<u8> {
    seq![x as u8, (x >> 8u32) as u8, (x >> 16u32) as u8, (x >> 24u32) as u8]
}

/// The word whose bytes, least significant first, are `b0, b1, b2, b3`.
pub open spec fn u32_from_le(b0: u8, b1: u8, b2: u8, b3: u8) -> u32 {
    (b0 as u32) | ((b1 as u32) << 8u32) | ((b2 as u32) << 16u32) | ((b3 as u32) << 24u32)
}

/// The four bytes of `x` as they lie in memory, in the byte order of the
/// machine (`vstd::endian::endianness`).
pub open spec fn u32_native_bytes(x: u32) -> Seq<u8> {
    let b = u32_le_bytes(x);
    if endianness() == Endian::Little {
        b
    } else {
        seq![b[3], b[2], b[1], b[0]]
    }
}

/// The word that the four bytes `b` hold in memory, in the byte order of the
/// machine.
pub open spec fn u32_from_native(b: Seq<u8>) -> u32 {
    if endianness() == Endian::Little {
        u32_from_le(b[0], b[1], b[2], b[3])
    } else {
        u32_from_le(b[3], b[2], b[1], b[0])
    }
}

/// The bytes of a buffer of words as they lie in memory: four per word.
pub open spec fn words_bytes(w: Seq<u32>) -> Seq<u8> {
    Seq::new(4 * w.len(), |j: int| u32_native_bytes(w[j / 4])[j % 4])
}

/// The words that a buffer of bytes holds in memory: one per four bytes.
pub open spec fn bytes_words(b: Seq<u8>) -> Seq<u32> {
    Seq::new(b.len() / 4, |i: int| u32_from_native(b.subrange(4 * i, 4 * i + 4)))
}

/// The bytes of a word, read as a base-256 number in the machine's byte
/// order, give the word back.
pub proof fn lemma_u32_native_bytes_value(x: u32)
    ensures
        u32_native_bytes(x).len() == 4,
        endianness() == Endian::Little ==> x == u32_native_bytes(x)[0] + 256 * u32_native_bytes(x)[1]
            + 65536 * u32_native_bytes(x)[2] + 16777216 * u32_native_bytes(x)[3],
        endianness() == Endian::Big ==> x == u32_native_bytes(x)[3] + 256 * u32_native_bytes(x)[2]
            + 65536 * u32_native_bytes(x)[1] + 16777216 * u32_native_bytes(x)[0],
{
    let b0 = x as u8;
    let b1 = (x >> 8u32) as u8;
    let b2 = (x >> 16u32) as u8;
    let b3 = (x >> 24u32) as u8;
    assert(x == b0 + 256 * b1 + 65536 * b2 + 16777216 * b3) by (bit_vector)
        requires
            b0 == x as u8,
            b1 == (x >> 8u32) as u8,
            b2 == (x >> 16u32) as u8,
            b3 == (x >> 24u32) as u8,
    ;
    assert(endianness() == Endian::Little || endianness() == Endian::Big);
}

/// Reading back the bytes of a word gives the word.
proof fn lemma_u32_bytes_roundtrip(x: u32)
    ensures
        u32_from_native(u32_native_bytes(x)) == x,
{
    let b0 = x as u8;
    let b1 = (x >> 8u32) as u8;
    let b2 = (x >> 16u32) as u8;
    let b3 = (x >> 24u32) as u8;
    assert(((b0 as u32) | ((b1 as u32) << 8u32) | ((b2 as u32) << 16u32) | ((b3 as u32) << 24u32))
        == x) by (bit_vector)
        requires
            b0 == x as u8,
            b1 == (x >> 8u32) as u8,
            b2 == (x >> 16u32) as u8,
            b3 == (x >> 24u32) as u8,
    ;
}

/// The bytes of the word read from four bytes are those four bytes.
proof fn lemma_u32_word_roundtrip(b: Seq<u8>)
    requires
        b.len() == 4,
    ensures
        u32_native_bytes(u32_from_native(b)) == b,
{
    let (c0, c1, c2, c3) = if endianness() == Endian::Little {
        (b[0], b[1], b[2], b[3])
    } else {
        (b[3], b[2], b[1], b[0])
    };
    let x = u32_from_le(c0, c1, c2, c3);
    assert(x as u8 == c0 && (x >> 8u32) as u8 == c1 && (x >> 16u32) as u8 == c2 && (x >> 24u32) as u8
        == c3) by (bit_vector)
        requires
            x == ((c0 as u32) | ((c1 as u32) << 8u32) | ((c2 as u32) << 16u32) | ((c3 as u32) << 24u32)),
    ;
    assert(u32_native_bytes(x) =~= b);
}

/// Reading words back from the bytes of a buffer of words gives the words.
pub proof fn lemma_bytes_words_roundtrip(w: Seq<u32>)
    ensures
        bytes_words(words_bytes(w)) == w,
{
    let b = words_bytes(w);
    assert forall|i: int| 0 <= i < w.len() implies #[trigger] bytes_words(b)[i] == w[i] by {
        let sub = b.subrange(4 * i, 4 * i + 4);
        assert forall|k: int| 0 <= k < 4 implies sub[k] == u32_native_bytes(w[i])[k] by {
            assert((4 * i + k) / 4 == i && (4 * i + k) % 4 == k);
        }
        assert(sub =~= u32_native_bytes(w[i]));
        lemma_u32_bytes_roundtrip(w[i]);
    }
    assert(bytes_words(b) =~= w);
}

/// Writing out the words read from a buffer of whole words gives the buffer.
pub proof fn lemma_words_bytes_roundtrip(b: Seq<u8>)
    requires
        b.len() % 4 == 0,
    ensures
        words_bytes(bytes_words(b)) == b,
{
    let w = bytes_words(b);
    assert forall|j: int| 0 <= j < b.len() implies #[trigger] words_bytes(w)[j] == b[j] by {
        let i = j / 4;
        let k = j % 4;
        let sub = b.subrange(4 * i, 4 * i + 4);
        lemma_u32_word_roundtrip(sub);
        assert(sub[k] == b[j]);
    }
    assert(words_bytes(w) =~= b);
}

/// `bytemuck::try_cast_slice` from bytes to `u32` words, copied into a vector.
/// The cast reinterprets the memory of the bytes, so every word is the one its
/// four bytes hold in the machine's byte order. It fails when the length is
/// not a multiple of four (stated here) or when the bytes are not aligned for
/// `u32` (an address property, left unsaid).
#[verifier::external_body]
pub(crate) fn bytes_to_words(bytes: &[u8]) -> (r: Option<Vec<u32>>)
    ensures
        r matches Some(w) ==> w@.len() * 4 == bytes@.len() && w@ == bytes_words(bytes@),
        bytes@.len() % 4 != 0 ==> r is None,
{
    match bytemuck::try_cast_slice::<u8, u32>(bytes) {
        Ok(w) => Some(w.to_vec()),
        Err(_) => None,
    }
}

/// `bytemuck::cast_slice` from `u32` words to bytes, copied into a vector.
/// This cast never fails; it reinterprets the memory of the words, so it gives
/// the four bytes of every word in the machine's byte order.
#[verifier::external_body]
pub(crate) fn words_to_bytes(words: &[u32]) -> (r: Vec<u8>)
    ensures
        r@.len() == words@.len() * 4,
        r@ == words_bytes(words@),
{
    bytemuck::cast_slice::<u32, u8>(words).to_vec()
}

} // verus!
