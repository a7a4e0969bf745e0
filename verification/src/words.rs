//! Two 64-bit words per block header, stored little-endian inside a byte arena.
use vstd::prelude::*;

verus! {

/// The allocated flag: the top bit of a header's size word.
pub const ALLOCATED_BIT: u64 = 0x8000_0000_0000_0000;

/// The free-list terminator.
pub const NONE: u64 = 0xffff_ffff_ffff_ffff;

/// Byte `i` (0..8) of `v`, least significant first.
pub open spec fn byte_of(v: u64, i: int) -> u8 {
    ((v >> ((8 * i) as u64)) & 0xff) as u8
}

/// The word whose little-endian bytes are `b0..b7`.
pub open spec fn word_of(b0: u8, b1: u8, b2: u8, b3: u8, b4: u8, b5: u8, b6: u8, b7: u8) -> u64 {
    (b0 as u64) | ((b1 as u64) << 8u64) | ((b2 as u64) << 16u64) | ((b3 as u64) << 24u64)
        | ((b4 as u64) << 32u64) | ((b5 as u64) << 40u64) | ((b6 as u64) << 48u64)
        | ((b7 as u64) << 56u64)
}

/// The word stored at byte offset `p` of `s`.
pub open spec fn word(s: Seq<u8>, p: int) -> u64 {
    word_of(s[p], s[p + 1], s[p + 2], s[p + 3], s[p + 4], s[p + 5], s[p + 6], s[p + 7])
}

/// `s` with the little-endian bytes of `v` written at `p..p + 8`.
pub open spec fn put_word(s: Seq<u8>, p: int, v: u64) -> Seq<u8> {
    Seq::new(s.len(), |i: int| if p <= i < p + 8 { byte_of(v, i - p) } else { s[i] })
}

/// Whether a word carries the allocated flag.
pub open spec fn flagged(v: u64) -> bool {
    v >= ALLOCATED_BIT
}

/// Each byte of a word, as the shifts and masks that take it out.
pub proof fn lemma_byte_of(v: u64)
    ensures
        byte_of(v, 0) == (v & 0xff) as u8,
        byte_of(v, 1) == ((v >> 8u64) & 0xff) as u8,
        byte_of(v, 2) == ((v >> 16u64) & 0xff) as u8,
        byte_of(v, 3) == ((v >> 24u64) & 0xff) as u8,
        byte_of(v, 4) == ((v >> 32u64) & 0xff) as u8,
        byte_of(v, 5) == ((v >> 40u64) & 0xff) as u8,
        byte_of(v, 6) == ((v >> 48u64) & 0xff) as u8,
        byte_of(v, 7) == ((v >> 56u64) & 0xff) as u8,
{
    assert(byte_of(v, 0) == (v & 0xff) as u8) by (bit_vector);
    assert(byte_of(v, 1) == ((v >> 8u64) & 0xff) as u8) by (bit_vector);
    assert(byte_of(v, 2) == ((v >> 16u64) & 0xff) as u8) by (bit_vector);
    assert(byte_of(v, 3) == ((v >> 24u64) & 0xff) as u8) by (bit_vector);
    assert(byte_of(v, 4) == ((v >> 32u64) & 0xff) as u8) by (bit_vector);
    assert(byte_of(v, 5) == ((v >> 40u64) & 0xff) as u8) by (bit_vector);
    assert(byte_of(v, 6) == ((v >> 48u64) & 0xff) as u8) by (bit_vector);
    assert(byte_of(v, 7) == ((v >> 56u64) & 0xff) as u8) by (bit_vector);
}

/// A word's bytes put back together are the word.
pub proof fn lemma_bytes_round_trip(v: u64)
    ensures
        word_of(
            byte_of(v, 0), byte_of(v, 1), byte_of(v, 2), byte_of(v, 3),
            byte_of(v, 4), byte_of(v, 5), byte_of(v, 6), byte_of(v, 7),
        ) == v,
{
    lemma_byte_of(v);
    let b0 = byte_of(v, 0);
    let b1 = byte_of(v, 1);
    let b2 = byte_of(v, 2);
    let b3 = byte_of(v, 3);
    let b4 = byte_of(v, 4);
    let b5 = byte_of(v, 5);
    let b6 = byte_of(v, 6);
    let b7 = byte_of(v, 7);
    assert(word_of(b0, b1, b2, b3, b4, b5, b6, b7) == v) by (bit_vector)
        requires
            b0 == (v & 0xff) as u8,
            b1 == ((v >> 8u64) & 0xff) as u8,
            b2 == ((v >> 16u64) & 0xff) as u8,
            b3 == ((v >> 24u64) & 0xff) as u8,
            b4 == ((v >> 32u64) & 0xff) as u8,
            b5 == ((v >> 40u64) & 0xff) as u8,
            b6 == ((v >> 48u64) & 0xff) as u8,
            b7 == ((v >> 56u64) & 0xff) as u8,
    ;
}

/// Writing a word and reading it back gives the word; reading elsewhere is unaffected.
pub proof fn lemma_put_word(s: Seq<u8>, p: int, v: u64, q: int)
    requires
        0 <= p,
        p + 8 <= s.len(),
        0 <= q,
        q + 8 <= s.len(),
        q == p || q + 8 <= p || p + 8 <= q,
    ensures
        put_word(s, p, v).len() == s.len(),
        word(put_word(s, p, v), q) == if q == p { v } else { word(s, q) },
{
    let t = put_word(s, p, v);
    if q == p {
        lemma_bytes_round_trip(v);
        assert(t[p] == byte_of(v, 0));
        assert(t[p + 1] == byte_of(v, 1));
        assert(t[p + 2] == byte_of(v, 2));
        assert(t[p + 3] == byte_of(v, 3));
        assert(t[p + 4] == byte_of(v, 4));
        assert(t[p + 5] == byte_of(v, 5));
        assert(t[p + 6] == byte_of(v, 6));
        assert(t[p + 7] == byte_of(v, 7));
    } else {
        assert(t[q] == s[q] && t[q + 1] == s[q + 1] && t[q + 2] == s[q + 2] && t[q + 3] == s[q + 3]);
        assert(t[q + 4] == s[q + 4] && t[q + 5] == s[q + 5] && t[q + 6] == s[q + 6] && t[q + 7] == s[q + 7]);
    }
}

/// The bytes of a word put together from bytes are those bytes.
proof fn lemma_unword(b0: u8, b1: u8, b2: u8, b3: u8, b4: u8, b5: u8, b6: u8, b7: u8)
    ensures
        ({
            let v = word_of(b0, b1, b2, b3, b4, b5, b6, b7);
            &&& (v & 0xff) as u8 == b0
            &&& ((v >> 8u64) & 0xff) as u8 == b1
            &&& ((v >> 16u64) & 0xff) as u8 == b2
            &&& ((v >> 24u64) & 0xff) as u8 == b3
            &&& ((v >> 32u64) & 0xff) as u8 == b4
            &&& ((v >> 40u64) & 0xff) as u8 == b5
            &&& ((v >> 48u64) & 0xff) as u8 == b6
            &&& ((v >> 56u64) & 0xff) as u8 == b7
        }),
{
    let v = word_of(b0, b1, b2, b3, b4, b5, b6, b7);
    assert((v & 0xff) as u8 == b0) by (bit_vector) requires v == word_of(b0, b1, b2, b3, b4, b5, b6, b7);
    assert(((v >> 8u64) & 0xff) as u8 == b1) by (bit_vector) requires v == word_of(b0, b1, b2, b3, b4, b5, b6, b7);
    assert(((v >> 16u64) & 0xff) as u8 == b2) by (bit_vector) requires v == word_of(b0, b1, b2, b3, b4, b5, b6, b7);
    assert(((v >> 24u64) & 0xff) as u8 == b3) by (bit_vector) requires v == word_of(b0, b1, b2, b3, b4, b5, b6, b7);
    assert(((v >> 32u64) & 0xff) as u8 == b4) by (bit_vector) requires v == word_of(b0, b1, b2, b3, b4, b5, b6, b7);
    assert(((v >> 40u64) & 0xff) as u8 == b5) by (bit_vector) requires v == word_of(b0, b1, b2, b3, b4, b5, b6, b7);
    assert(((v >> 48u64) & 0xff) as u8 == b6) by (bit_vector) requires v == word_of(b0, b1, b2, b3, b4, b5, b6, b7);
    assert(((v >> 56u64) & 0xff) as u8 == b7) by (bit_vector) requires v == word_of(b0, b1, b2, b3, b4, b5, b6, b7);
}

/// Two byte sequences that hold the same word at `q` hold the same eight
/// bytes there.
pub proof fn lemma_word_bytes(s1: Seq<u8>, s2: Seq<u8>, q: int)
    requires
        0 <= q,
        q + 8 <= s1.len(),
        q + 8 <= s2.len(),
        word(s1, q) == word(s2, q),
    ensures
        s1[q] == s2[q],
        s1[q + 1] == s2[q + 1],
        s1[q + 2] == s2[q + 2],
        s1[q + 3] == s2[q + 3],
        s1[q + 4] == s2[q + 4],
        s1[q + 5] == s2[q + 5],
        s1[q + 6] == s2[q + 6],
        s1[q + 7] == s2[q + 7],
{
    lemma_unword(s1[q], s1[q + 1], s1[q + 2], s1[q + 3], s1[q + 4], s1[q + 5], s1[q + 6], s1[q + 7]);
    lemma_unword(s2[q], s2[q + 1], s2[q + 2], s2[q + 3], s2[q + 4], s2[q + 5], s2[q + 6], s2[q + 7]);
}

/// What setting and clearing the allocated flag do to a word.
pub proof fn lemma_flag_bits(v: u64)
    ensures
        (v & !ALLOCATED_BIT) < ALLOCATED_BIT,
        flagged(v) <==> (v & ALLOCATED_BIT) != 0,
        !flagged(v) ==> (v & !ALLOCATED_BIT) == v,
        flagged(v) ==> (v & !ALLOCATED_BIT) == v - ALLOCATED_BIT,
        !flagged(v) ==> (v | ALLOCATED_BIT) == v + ALLOCATED_BIT,
        flagged(v) ==> (v | ALLOCATED_BIT) == v,
{
    assert((v & !0x8000_0000_0000_0000u64) < 0x8000_0000_0000_0000u64) by (bit_vector);
    assert((v >= 0x8000_0000_0000_0000u64) <==> (v & 0x8000_0000_0000_0000u64) != 0) by (bit_vector);
    assert(v < 0x8000_0000_0000_0000u64 ==> (v & !0x8000_0000_0000_0000u64) == v) by (bit_vector);
    assert(v >= 0x8000_0000_0000_0000u64 ==> (v & !0x8000_0000_0000_0000u64) == v - 0x8000_0000_0000_0000u64) by (bit_vector);
    assert(v < 0x8000_0000_0000_0000u64 ==> (v | 0x8000_0000_0000_0000u64) == v + 0x8000_0000_0000_0000u64) by (bit_vector);
    assert(v >= 0x8000_0000_0000_0000u64 ==> (v | 0x8000_0000_0000_0000u64) == v) by (bit_vector);
}

} // verus!
