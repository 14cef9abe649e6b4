//! Murmur3 hash over a sequence of Unicode scalar values: each `char` is one
//! 32-bit block. The specification functions below define the hash exactly;
//! the executable functions are proved to compute it.
//!
//! Credits: derived from MurmurHash3.cpp (public domain) by Austin Appleby.

use vstd::prelude::*;

verus! {

/// Left rotation of a 32-bit value by `r` bits, 0 < r < 32.
pub open spec fn spec_rotl32(x: u32, r: u32) -> u32
    recommends
        0 < r < 32,
{
    (x << r) | (x >> ((32 - r) as u32))
}

/// Wrapping 32-bit product.
pub open spec fn spec_mul32(a: u32, b: u32) -> u32 {
    vstd::wrapping::u32_specs::wrapping_mul(a, b)
}

/// Wrapping 32-bit sum.
pub open spec fn spec_add32(a: u32, b: u32) -> u32 {
    vstd::wrapping::u32_specs::wrapping_add(a, b)
}

/// One murmur3 round: mix one 32-bit block into the accumulator.
#[verifier::opaque]
pub open spec fn m3_mix(h: u32, block: u32) -> u32 {
    let k = spec_mul32(spec_rotl32(spec_mul32(block, 0xcc9e2d51), 15), 0x1b873593);
    spec_add32(spec_mul32(spec_rotl32(h ^ k, 13), 5), 0xe6546b64)
}

/// Accumulator after mixing every character of `s`, left to right,
/// starting from `seed`.
pub open spec fn m3_body(s: Seq<char>, seed: u32) -> u32
    decreases s.len(),
{
    if s.len() == 0 {
        seed
    } else {
        m3_mix(m3_body(s.drop_last(), seed), s.last() as u32)
    }
}

/// Murmur3 finalizer: avalanche of the accumulator.
#[verifier::opaque]
pub open spec fn m3_avalanche(h0: u32) -> u32 {
    let h1 = h0 ^ (h0 >> 16);
    let h2 = spec_mul32(h1, 0x85ebca6b);
    let h3 = h2 ^ (h2 >> 13);
    let h4 = spec_mul32(h3, 0xc2b2ae35);
    h4 ^ (h4 >> 16)
}

/// Complete hash: body over the characters, xor with a length counter
/// (truncated to 32 bits), then the avalanche.
pub open spec fn m3_final(h: u32, length: int) -> u32
    recommends
        length >= 0,
{
    m3_avalanche(h ^ ((length % 0x1_0000_0000) as u32))
}

/// UTF-8 byte count of a character sequence, as the `len` of a real string
/// reports it (vstd specifies `str::len` with this truncating cast).
pub open spec fn utf8_len(s: Seq<char>) -> usize {
    vstd::utf8::encode_utf8(s).len() as usize
}

/// Hash of a whole character sequence with its UTF-8 byte count as the
/// length counter. This is the dictionary key function.
pub open spec fn spec_murmur3(s: Seq<char>, seed: u32) -> u32 {
    m3_final(m3_body(s, seed), utf8_len(s) as int)
}

/// Number of characters of `s` that a scan limit of `limit` lets through.
pub open spec fn limited_len(s: Seq<char>, limit: u32) -> int {
    vstd::math::min(limit as int, s.len() as int)
}

/// Hash of the first `limit` characters of `s`, with the byte count of
/// exactly those characters as the length counter.
pub open spec fn spec_limited_hash(s: Seq<char>, seed: u32, limit: u32) -> u32 {
    let t = s.take(limited_len(s, limit));
    m3_final(m3_body(t, seed), utf8_len(t) as int)
}

/// Byte width of one character's UTF-8 encoding.
pub open spec fn char_len(c: char) -> int {
    vstd::utf8::encode_scalar(c as u32).len() as int
}

/// Appending one character appends exactly its own encoding.
pub proof fn lemma_encode_utf8_push(s: Seq<char>, c: char)
    ensures
        vstd::utf8::encode_utf8(s.push(c)) == vstd::utf8::encode_utf8(s) + vstd::utf8::encode_scalar(
            c as u32,
        ),
    decreases s.len(),
{
    let sp = s.push(c);
    if s.len() == 0 {
        assert(sp[0] == c);
        assert(sp.drop_first() =~= Seq::<char>::empty());
        assert(vstd::utf8::encode_utf8(sp.drop_first()) =~= Seq::<u8>::empty());
        assert(vstd::utf8::encode_utf8(s) =~= Seq::<u8>::empty());
        assert(vstd::utf8::encode_utf8(sp) =~= vstd::utf8::encode_utf8(s)
            + vstd::utf8::encode_scalar(c as u32));
    } else {
        assert(sp[0] == s[0]);
        assert(sp.drop_first() =~= s.drop_first().push(c));
        lemma_encode_utf8_push(s.drop_first(), c);
        assert(vstd::utf8::encode_utf8(sp) == vstd::utf8::encode_scalar(sp[0] as u32)
            + vstd::utf8::encode_utf8(sp.drop_first()));
        assert(vstd::utf8::encode_utf8(s) == vstd::utf8::encode_scalar(s[0] as u32)
            + vstd::utf8::encode_utf8(s.drop_first()));
        assert(vstd::utf8::encode_utf8(sp) =~= vstd::utf8::encode_utf8(s)
            + vstd::utf8::encode_scalar(c as u32));
    }
}

/// Byte width of one character's UTF-8 encoding, computed from its scalar
/// value.
pub fn char_utf8_len(c: char) -> (n: usize)
    ensures
        n as int == char_len(c),
        1 <= n <= 4,
{
    proof {
        vstd::utf8::char_is_scalar(c);
    }
    let v = c as u32;
    if v < 0x80 {
        1
    } else if v < 0x800 {
        2
    } else if v < 0x10000 {
        3
    } else {
        4
    }
}

/// Left rotation of a 32-bit value by `r` bits.
fn rotl32(x: u32, r: u32) -> (y: u32)
    requires
        0 < r < 32,
    ensures
        y == spec_rotl32(x, r),
{
    (x << r) | (x >> (32 - r))
}

/// One executable murmur3 round, proved equal to `m3_mix`.
pub(crate) fn mix(h: u32, block: u32) -> (h2: u32)
    ensures
        h2 == m3_mix(h, block),
{
    proof {
        reveal(m3_mix);
    }
    let mut k = block;
    k = k.wrapping_mul(0xcc9e2d51);
    k = rotl32(k, 15);
    k = k.wrapping_mul(0x1b873593);
    let mut h2 = h ^ k;
    h2 = rotl32(h2, 13);
    h2 = h2.wrapping_mul(5);
    h2 = h2.wrapping_add(0xe6546b64);
    h2
}

/// Executable murmur3 finalizer, proved equal to `m3_avalanche` after the
/// length xor.
pub(crate) fn finalize(h0: u32, length: u32) -> (h: u32)
    ensures
        h == m3_avalanche(h0 ^ length),
{
    proof {
        reveal(m3_avalanche);
    }
    let mut h = h0 ^ length;
    h ^= h >> 16;
    h = h.wrapping_mul(0x85ebca6b);
    h ^= h >> 13;
    h = h.wrapping_mul(0xc2b2ae35);
    h ^ (h >> 16)
}

/// Mix the first `n` characters of `s` into the accumulator, left to right.
pub(crate) fn hash_chars(s: &str, seed: u32, n: usize) -> (h: u32)
    requires
        n <= s@.len(),
    ensures
        h == m3_body(s@.take(n as int), seed),
{
    let mut h = seed;
    let mut i: usize = 0;
    while i < n
        invariant
            n <= s@.len(),
            i <= n,
            h == m3_body(s@.take(i as int), seed),
        decreases n - i,
    {
        let c = s.get_char(i);
        proof {
            assert(s@.take(i + 1).drop_last() =~= s@.take(i as int));
            assert(s@.take(i + 1).last() == s@[i as int]);
        }
        h = mix(h, c as u32);
        i += 1;
    }
    h
}

/// Compute the murmur3 hash of the first `limit` codepoints of a grapheme
/// cluster string, using each char as a u32 block.
/// Returns: (murmur3 hash, how many bytes of the key were hashed).
#[verifier::rlimit(100)]
pub fn grapheme_cluster(gc: &str, seed: u32, limit: u32) -> (r: (u32, usize))
    ensures
        r.0 == spec_limited_hash(gc@, seed, limit),
        r.1 == utf8_len(gc@.take(limited_len(gc@, limit))),
{
    let char_count = gc.unicode_len();
    let n: usize = if (limit as usize) < char_count {
        limit as usize
    } else {
        char_count
    };
    let h0 = hash_chars(gc, seed, n);
    let hashed = gc.substring_char(0, n);
    let bytes_hashed = hashed.len();
    proof {
        assert(gc@.take(n as int) =~= gc@.subrange(0, n as int));
        assert(gc@.take(limited_len(gc@, limit)) =~= gc@.take(n as int));
    }
    let length: u32 = ((bytes_hashed as u64) % 0x1_0000_0000) as u32;
    let h = finalize(h0, length);
    proof {
        let t = gc@.take(limited_len(gc@, limit));
        assert(bytes_hashed == utf8_len(t));
        assert(h == m3_final(m3_body(t, seed), utf8_len(t) as int));
    }
    (h, bytes_hashed)
}

} // verus!
