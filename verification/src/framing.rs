//! The layout of bytes: little-endian words, the length prefix and the padding that
//! frame the data, and the stripes of `k` words.
use vstd::prelude::*;

verus! {

/// Byte `i` of the little-endian form of `x`.
pub open spec fn byte_at(x: u64, i: int) -> u8 {
    ((x >> ((8 * i) as u64)) & 0xFF) as u8
}

/// The eight bytes of `x`, lowest first.
pub open spec fn length_prefix(x: u64) -> Seq<u8> {
    Seq::new(8, |i: int| byte_at(x, i))
}

/// The number that the first `n` bytes hold in little-endian form; `n` is at most 8.
pub open spec fn le_value(bytes: Seq<u8>, n: nat) -> u64
    decreases n,
{
    if n == 0 {
        0
    } else {
        le_value(bytes, (n - 1) as nat) | ((bytes[n - 1] as u64) << ((8 * (n - 1)) as u64))
    }
}

/// The 32-bit word with the four bytes, lowest first.
pub open spec fn word_of(b0: u8, b1: u8, b2: u8, b3: u8) -> u32 {
    ((b0 as u32) + ((b1 as u32) << 8) + ((b2 as u32) << 16) + ((b3 as u32) << 24)) as u32
}

/// The byte at index `i`, and zero beyond the end.
pub open spec fn byte_or_zero(bytes: Seq<u8>, i: int) -> u8 {
    if 0 <= i < bytes.len() {
        bytes[i]
    } else {
        0
    }
}

/// Word `j` of the bytes, read as little-endian words; bytes that a last word lacks
/// count as zero.
pub open spec fn word_at(bytes: Seq<u8>, j: int) -> u32 {
    word_of(
        byte_or_zero(bytes, 4 * j),
        byte_or_zero(bytes, 4 * j + 1),
        byte_or_zero(bytes, 4 * j + 2),
        byte_or_zero(bytes, 4 * j + 3),
    )
}

/// The number of words that `len` bytes make, a last short one counted.
pub open spec fn word_count(len: nat) -> nat {
    (len + 3) / 4
}

/// The bytes read as little-endian words.
pub open spec fn words_of(bytes: Seq<u8>) -> Seq<u32> {
    Seq::new(word_count(bytes.len()), |j: int| word_at(bytes, j))
}

/// The four bytes of a word, lowest first.
pub open spec fn word_bytes(w: u32) -> Seq<u8> {
    seq![
        (w & 0xFF) as u8,
        ((w >> 8) & 0xFF) as u8,
        ((w >> 16) & 0xFF) as u8,
        ((w >> 24) & 0xFF) as u8,
    ]
}

/// The words written as bytes, each word lowest byte first.
pub open spec fn bytes_of(words: Seq<u32>) -> Seq<u8> {
    Seq::new(4 * words.len(), |i: int| word_bytes(words[i / 4])[i % 4])
}

/// The number of zero bytes that follow the data: between 1 and `4 * k`, so that
/// prefix, data and padding together are a multiple of `4 * k` bytes.
pub open spec fn padding(len: nat, k: nat) -> nat {
    (4 * k - (8 + len) % (4 * k)) as nat
}

/// The framed data: its length in eight bytes, the data, and the padding.
pub open spec fn framed(data: Seq<u8>, k: nat) -> Seq<u8> {
    length_prefix(data.len() as u64) + data + Seq::new(padding(data.len(), k), |i: int| 0u8)
}

/// The number of stripes of `k` words that the framed data fills.
pub open spec fn stripe_count(len: nat, k: nat) -> nat {
    (8 + len + padding(len, k)) / (4 * k)
}

/// The data in a frame: the bytes that follow the first eight, as many as these
/// eight say or, where the frame is shorter, as many as there are.
pub open spec fn unframed(frame: Seq<u8>) -> Seq<u8> {
    let size = le_value(frame, 8);
    if 8 + size <= frame.len() {
        frame.subrange(8, 8 + size)
    } else {
        frame.skip(8)
    }
}

/// The four bytes of a word make the word again, the word of four bytes has these
/// bytes, and these bytes can be added up within 32 bits.
pub proof fn lemma_word_bytes(w: u32, b0: u8, b1: u8, b2: u8, b3: u8)
    by (bit_vector)
    ensures
        (b0 as u32) + ((b1 as u32) << 8) <= 0xFFFF,
        (b0 as u32) + ((b1 as u32) << 8) + ((b2 as u32) << 16) <= 0xFF_FFFF,
        (b0 as u32) + ((b1 as u32) << 8) + ((b2 as u32) << 16) + ((b3 as u32) << 24)
            <= 0xFFFF_FFFF,
        (0u8 as u32) << 8 == 0,
        (0u8 as u32) << 16 == 0,
        (0u8 as u32) << 24 == 0,
        word_of((w & 0xFF) as u8, ((w >> 8) & 0xFF) as u8, ((w >> 16) & 0xFF) as u8, ((w >> 24)
            & 0xFF) as u8) == w,
        (word_of(b0, b1, b2, b3) & 0xFF) as u8 == b0,
        ((word_of(b0, b1, b2, b3) >> 8) & 0xFF) as u8 == b1,
        ((word_of(b0, b1, b2, b3) >> 16) & 0xFF) as u8 == b2,
        ((word_of(b0, b1, b2, b3) >> 24) & 0xFF) as u8 == b3,
{
}

/// Words written as bytes and read again are the same words.
pub proof fn lemma_words_of_bytes_of(words: Seq<u32>)
    ensures
        words_of(bytes_of(words)) == words,
{
    let b = bytes_of(words);
    assert forall|j: int| 0 <= j < words.len() implies word_at(b, j) == words[j] by {
        lemma_word_bytes(words[j], 0, 0, 0, 0);
        assert(b[4 * j] == word_bytes(words[j])[0]);
        assert(b[4 * j + 1] == word_bytes(words[j])[1]);
        assert(b[4 * j + 2] == word_bytes(words[j])[2]);
        assert(b[4 * j + 3] == word_bytes(words[j])[3]);
    }
    assert(words_of(b) =~= words);
}

/// A whole number of words, read from bytes and written again, are the same bytes.
pub proof fn lemma_bytes_of_words_of(bytes: Seq<u8>)
    requires
        bytes.len() % 4 == 0,
    ensures
        bytes_of(words_of(bytes)) == bytes,
{
    let w = words_of(bytes);
    assert forall|i: int| 0 <= i < bytes.len() implies bytes_of(w)[i] == bytes[i] by {
        let j = i / 4;
        lemma_word_bytes(0, bytes[4 * j], bytes[4 * j + 1], bytes[4 * j + 2], bytes[4 * j + 3]);
    }
    assert(bytes_of(w) =~= bytes);
}

/// A 64-bit word is made of its eight bytes.
proof fn lemma_prefix_bits(x: u64)
    by (bit_vector)
    ensures
        x == (((x >> 0) & 0xFF) as u8 as u64) << 0 | (((x >> 8) & 0xFF) as u8 as u64) << 8 | (((x
            >> 16) & 0xFF) as u8 as u64) << 16 | (((x >> 24) & 0xFF) as u8 as u64) << 24 | (((x
            >> 32) & 0xFF) as u8 as u64) << 32 | (((x >> 40) & 0xFF) as u8 as u64) << 40 | (((x
            >> 48) & 0xFF) as u8 as u64) << 48 | (((x >> 56) & 0xFF) as u8 as u64) << 56,
        0u64 | (((x >> 0) & 0xFF) as u8 as u64) << 0 == (((x >> 0) & 0xFF) as u8 as u64) << 0,
{
}

/// The length that a prefix holds is the length that was written into it.
pub proof fn lemma_length_prefix(x: u64, rest: Seq<u8>)
    ensures
        le_value(length_prefix(x) + rest, 8) == x,
{
    let b = length_prefix(x) + rest;
    reveal_with_fuel(le_value, 9);
    assert(b[0] == byte_at(x, 0));
    assert(b[1] == byte_at(x, 1));
    assert(b[2] == byte_at(x, 2));
    assert(b[3] == byte_at(x, 3));
    assert(b[4] == byte_at(x, 4));
    assert(b[5] == byte_at(x, 5));
    assert(b[6] == byte_at(x, 6));
    assert(b[7] == byte_at(x, 7));
    lemma_prefix_bits(x);
}

/// The padding is between 1 and `4 * k` bytes, and the frame is a whole number of
/// stripes, at least one.
pub proof fn lemma_frame_len(len: nat, k: nat)
    requires
        k > 0,
    ensures
        1 <= padding(len, k) <= 4 * k,
        framed_len(len, k) == stripe_count(len, k) * (4 * k),
        stripe_count(len, k) >= 1,
        framed_len(len, k) % 4 == 0,
{
    let m = (4 * k) as int;
    let total = (8 + len) as int;
    vstd::arithmetic::div_mod::lemma_fundamental_div_mod(total, m);
    vstd::arithmetic::div_mod::lemma_mod_bound(total, m);
    let q = total / m;
    let f = framed_len(len, k) as int;
    assert(f == m * q + m);
    assert(f == m * (q + 1)) by (nonlinear_arith)
        requires
            f == m * q + m,
    ;
    vstd::arithmetic::div_mod::lemma_div_multiples_vanish(q + 1, m);
    assert((m * (q + 1)) / m == q + 1) by {
        vstd::arithmetic::mul::lemma_mul_is_commutative(m, q + 1);
    }
    assert(q >= 0) by {
        vstd::arithmetic::div_mod::lemma_div_pos_is_pos(total, m);
    }
    assert(stripe_count(len, k) * (4 * k) == f) by (nonlinear_arith)
        requires
            stripe_count(len, k) == q + 1,
            f == m * (q + 1),
            m == 4 * k,
    ;
    let h = k * (q + 1);
    assert(f == 4 * h) by (nonlinear_arith)
        requires
            f == m * (q + 1),
            m == 4 * k,
            h == k * (q + 1),
    ;
    assert(f % 4 == 0);
}

/// The length of the framed data.
pub open spec fn framed_len(len: nat, k: nat) -> nat {
    8 + len + padding(len, k)
}

} // verus!
