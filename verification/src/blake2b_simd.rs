//! A Blake2b context for single-block messages: the compression function
//! F of RFC 7693 and the digest, each stated as spec functions and proved.

use vstd::prelude::*;
use vstd::arithmetic::mul::*;
use vstd::arithmetic::power2::*;
use vstd::bits::*;

verus! {

/// The eight Blake2b initialisation words.
pub const BLAKE2B_IV: [u64; 8] = [
    0x6a09e667f3bcc908,
    0xbb67ae8584caa73b,
    0x3c6ef372fe94f82b,
    0xa54ff53a5f1d36f1,
    0x510e527fade682d1,
    0x9b05688c2b3e6c1f,
    0x1f83d9abfb41bd6b,
    0x5be0cd19137e2179,
];

/// Rotation of a 64-bit word right by `n` places, stated arithmetically:
/// the low `n` bits move to the top and the rest move down.
pub open spec fn rotr64_spec(x: u64, n: nat) -> u64 {
    ((x as nat / pow2(n)) + (x as nat % pow2(n))
        * pow2((64 - n) as nat)) as u64
}

fn rotr64(x: u64, n: u32) -> (r: u64)
    requires
        0 < n < 64,
    ensures
        r == rotr64_spec(x, n as nat),
{
    let r = (x >> n) | (x << (64 - n));
    proof {
        lemma_rotr64(x, n);
    }
    r
}

proof fn lemma_rotr64(x: u64, n: u32)
    requires
        0 < n < 64,
    ensures
        (x >> n) | (x << (64 - n)) == rotr64_spec(x, n as nat),
{
    let m: u32 = (64 - n) as u32;
    let mask: u64 = ((1u64 << n) - 1) as u64;
    let lo: u64 = x & mask;
    assert((x >> n) | (x << m) == (x >> n) + (lo << m)) by (bit_vector)
        requires
            0 < n < 64,
            m == 64 - n,
            mask == ((1u64 << n) - 1) as u64,
            lo == x & mask,
    ;
    let pn = pow2(n as nat);
    let pm = pow2(m as nat);
    lemma_u64_pow2_no_overflow(n as nat);
    lemma_u64_pow2_no_overflow(m as nat);
    lemma_u64_shr_is_div(x, n as u64);
    lemma_u64_shl_is_mul(1u64, n as u64);
    assert(mask == low_bits_mask(n as nat));
    lemma_u64_low_bits_mask_is_mod(x, n as nat);
    assert(lo == x % (pn as u64));
    assert(lo < pn);
    lemma_pow2_adds(n as nat, m as nat);
    assert(pow2(64) == 0x1_0000_0000_0000_0000) by {
        lemma2_to64_rest();
    }
    assert(lo * pm <= (pn - 1) * pm) by {
        lemma_mul_inequality(lo as int, pn - 1, pm as int);
    }
    assert((pn - 1) * pm == pn * pm - pm) by {
        lemma_mul_is_distributive_sub_other_way(pm as int, pn as int, 1);
    }
    lemma_u64_shl_is_mul(lo, m as u64);
}

/// The message schedule: round `r` feeds the G calls with the words
/// `m[SIGMA[r][0]], m[SIGMA[r][1]], ...`.
pub const SIGMA: [[usize; 16]; 12] = [
    [0, 1, 2, 3, 4, 5, 6, 7, 8, 9, 10, 11, 12, 13, 14, 15],
    [14, 10, 4, 8, 9, 15, 13, 6, 1, 12, 0, 2, 11, 7, 5, 3],
    [11, 8, 12, 0, 5, 2, 15, 13, 10, 14, 3, 6, 7, 1, 9, 4],
    [7, 9, 3, 1, 13, 12, 11, 14, 2, 6, 5, 10, 4, 0, 15, 8],
    [9, 0, 5, 7, 2, 4, 10, 15, 14, 1, 11, 12, 6, 8, 3, 13],
    [2, 12, 6, 10, 0, 11, 8, 3, 4, 13, 7, 5, 15, 14, 1, 9],
    [12, 5, 1, 15, 14, 13, 4, 10, 0, 7, 6, 3, 9, 2, 8, 11],
    [13, 11, 7, 14, 12, 1, 3, 9, 5, 0, 15, 4, 8, 6, 2, 10],
    [6, 15, 14, 9, 11, 3, 0, 8, 12, 2, 13, 7, 1, 4, 10, 5],
    [10, 2, 8, 4, 7, 6, 1, 5, 15, 11, 9, 14, 3, 12, 13, 0],
    [0, 1, 2, 3, 4, 5, 6, 7, 8, 9, 10, 11, 12, 13, 14, 15],
    [14, 10, 4, 8, 9, 15, 13, 6, 1, 12, 0, 2, 11, 7, 5, 3],
];

proof fn lemma_sigma_bounds(r: int, i: int)
    requires
        0 <= r < 12,
        0 <= i < 16,
    ensures
        SIGMA[r][i] < 16,
{
}

/// Addition of two 64-bit words modulo 2^64.
pub open spec fn add64(x: u64, y: u64) -> u64 {
    ((x + y) % 0x1_0000_0000_0000_0000) as u64
}

/// The Blake2b mixing function G on the working vector `v`, acting on
/// positions `a`, `b`, `c`, `d` with the message words `x` and `y`.
pub open spec fn g_spec(v: Seq<u64>, a: int, b: int, c: int, d: int, x: u64, y: u64) -> Seq<u64> {
    let va1 = add64(add64(v[a], v[b]), x);
    let vd1 = rotr64_spec(v[d] ^ va1, 32);
    let vc1 = add64(v[c], vd1);
    let vb1 = rotr64_spec(v[b] ^ vc1, 24);
    let va2 = add64(add64(va1, vb1), y);
    let vd2 = rotr64_spec(vd1 ^ va2, 16);
    let vc2 = add64(vc1, vd2);
    let vb2 = rotr64_spec(vb1 ^ vc2, 63);
    v.update(a, va2).update(b, vb2).update(c, vc2).update(d, vd2)
}

fn add64_exec(x: u64, y: u64) -> (r: u64)
    ensures
        r == add64(x, y),
{
    x.wrapping_add(y)
}

/// The little-endian 64-bit word stored at bytes `o .. o + 8` of `b`.
pub open spec fn le_u64_at(b: Seq<u8>, o: int) -> u64 {
    (b[o] + b[o + 1] * 0x100 + b[o + 2] * 0x1_0000 + b[o + 3] * 0x100_0000 + b[o + 4]
        * 0x1_0000_0000 + b[o + 5] * 0x100_0000_0000 + b[o + 6] * 0x1_0000_0000_0000 + b[o + 7]
        * 0x100_0000_0000_0000) as u64
}

/// The sixteen little-endian message words of a 128-byte block.
pub open spec fn message_words(block: Seq<u8>) -> Seq<u64> {
    Seq::new(16, |i: int| le_u64_at(block, 8 * i))
}

/// The word of the message fed to the `i`-th input of round `r`.
pub open spec fn scheduled(m: Seq<u64>, r: int, i: int) -> u64 {
    m[SIGMA[r][i] as int]
}

/// One round: G on the four columns, then on the four diagonals.
#[verifier::opaque]
pub open spec fn round_spec(v: Seq<u64>, m: Seq<u64>, r: int) -> Seq<u64> {
    let v = g_spec(v, 0, 4, 8, 12, scheduled(m, r, 0), scheduled(m, r, 1));
    let v = g_spec(v, 1, 5, 9, 13, scheduled(m, r, 2), scheduled(m, r, 3));
    let v = g_spec(v, 2, 6, 10, 14, scheduled(m, r, 4), scheduled(m, r, 5));
    let v = g_spec(v, 3, 7, 11, 15, scheduled(m, r, 6), scheduled(m, r, 7));
    let v = g_spec(v, 0, 5, 10, 15, scheduled(m, r, 8), scheduled(m, r, 9));
    let v = g_spec(v, 1, 6, 11, 12, scheduled(m, r, 10), scheduled(m, r, 11));
    let v = g_spec(v, 2, 7, 8, 13, scheduled(m, r, 12), scheduled(m, r, 13));
    g_spec(v, 3, 4, 9, 14, scheduled(m, r, 14), scheduled(m, r, 15))
}

/// The first `n` rounds applied to `v`, in order.
pub open spec fn rounds_spec(v: Seq<u64>, m: Seq<u64>, n: nat) -> Seq<u64>
    decreases n,
{
    if n == 0 {
        v
    } else {
        round_spec(rounds_spec(v, m, (n - 1) as nat), m, n - 1)
    }
}

/// The working vector at the start of compression: the state, the first
/// half of the IV, the IV word mixed with the byte count, and the IV word
/// inverted for the last block.
pub open spec fn initial_work(h: Seq<u64>, t: u64, is_last: bool) -> Seq<u64> {
    h + BLAKE2B_IV@.subrange(0, 4) + seq![
        BLAKE2B_IV[4] ^ t,
        BLAKE2B_IV[5],
        if is_last { !BLAKE2B_IV[6] } else { BLAKE2B_IV[6] },
        BLAKE2B_IV[7],
    ]
}

/// The Blake2b compression function F: twelve rounds on the working vector,
/// then each state word xored with both halves of the result.
pub open spec fn compress_spec(h: Seq<u64>, t: u64, m: Seq<u64>, is_last: bool) -> Seq<u64> {
    let w = rounds_spec(initial_work(h, t, is_last), m, 12);
    Seq::new(8, |i: int| h[i] ^ (w[i] ^ w[i + 8]))
}

/// The state that a fresh context starts from for an output of `outlen`
/// bytes: the IV with the parameter block (digest length, fanout 1,
/// depth 1, no key) folded into its first word.
pub open spec fn initial_state(outlen: usize) -> Seq<u64> {
    BLAKE2B_IV@.update(0, BLAKE2B_IV[0] ^ (0x01010000u64 ^ (outlen as u64)))
}

/// The eight little-endian bytes of a 64-bit word.
pub open spec fn word_le_bytes(w: u64) -> Seq<u8> {
    seq![
        (w % 0x100) as u8,
        ((w / 0x100) % 0x100) as u8,
        ((w / 0x1_0000) % 0x100) as u8,
        ((w / 0x100_0000) % 0x100) as u8,
        ((w / 0x1_0000_0000) % 0x100) as u8,
        ((w / 0x100_0000_0000) % 0x100) as u8,
        ((w / 0x1_0000_0000_0000) % 0x100) as u8,
        ((w / 0x100_0000_0000_0000) % 0x100) as u8,
    ]
}

/// The digest: the first `outlen` bytes of the state words written out
/// little-endian one after the other.
pub open spec fn digest_bytes(h: Seq<u64>, outlen: nat) -> Seq<u8> {
    Seq::new(outlen, |k: int| word_le_bytes(h[k / 8])[k % 8])
}

/// The little-endian 32-bit value of bytes `o .. o + 4` of `b`.
pub open spec fn le_u32_at(b: Seq<u8>, o: int) -> nat {
    (b[o] + b[o + 1] * 0x100 + b[o + 2] * 0x1_0000 + b[o + 3] * 0x100_0000) as nat
}

/// Blake2b hashing context: the chaining state, the byte count and the
/// digest length.
pub struct Blake2bSimdContext {
    /// Hash state (8 words)
    pub h: [u64; 8],
    /// Input byte count
    pub t: u64,
    /// Output length in bytes
    pub outlen: usize,
}

impl Blake2bSimdContext {
    /// Creates a context for a digest of `outlen` bytes (1 to 64).
    pub fn new(outlen: usize) -> (ctx: Self)
        requires
            0 < outlen <= 64,
        ensures
            ctx.h@ == initial_state(outlen),
            ctx.t == 0,
            ctx.outlen == outlen,
    {
        let mut h = BLAKE2B_IV;
        h[0] = h[0] ^ (0x01010000 ^ (outlen as u64));
        assert(h@ =~= initial_state(outlen));
        Self { h, t: 0, outlen }
    }

    /// Puts the state back to the one a fresh context of the same output
    /// length starts from; the byte count and output length stay.
    pub fn reset_for_short_message(&mut self)
        ensures
            final(self).h@ == initial_state(old(self).outlen),
            final(self).t == old(self).t,
            final(self).outlen == old(self).outlen,
    {
        self.h = BLAKE2B_IV;
        self.h[0] = self.h[0] ^ (0x01010000 ^ (self.outlen as u64));
        assert(self.h@ =~= initial_state(old(self).outlen));
    }

    /// The digest: the first `outlen` bytes of the state, little-endian.
    pub fn finalize(&self) -> (out: Vec<u8>)
        requires
            self.outlen <= 64,
        ensures
            out@ == digest_bytes(self.h@, self.outlen as nat),
    {
        let mut out: Vec<u8> = Vec::with_capacity(self.outlen);
        let words = self.outlen / 8;
        let mut i: usize = 0;
        while i < words
            invariant
                0 <= i <= words,
                words == self.outlen / 8,
                self.outlen <= 64,
                out@ == digest_bytes(self.h@, 8 * i as nat),
            decreases words - i,
        {
            extend_le_bytes(&mut out, self.h[i], 8);
            assert(out@ =~= digest_bytes(self.h@, 8 * (i + 1) as nat));
            i += 1;
        }
        if self.outlen % 8 != 0 {
            let remaining = self.outlen % 8;
            extend_le_bytes(&mut out, self.h[self.outlen / 8], remaining);
        }
        assert(out@ =~= digest_bytes(self.h@, self.outlen as nat));
        out
    }

    /// The first state word reduced to 32 bits, which is the little-endian
    /// value of the first four digest bytes.
    pub fn hash_value_u32(&self) -> (r: u32)
        ensures
            r == self.h[0] % 0x1_0000_0000,
    {
        let w = self.h[0];
        assert(w & 0xFFFFFFFF == w % 0x1_0000_0000) by (bit_vector);
        (w & 0xFFFFFFFF) as u32
    }

    /// Compresses one 128-byte block into the state.
    pub fn compress(&mut self, buffer: &[u8], is_last: bool)
        requires
            buffer@.len() == 128,
        ensures
            final(self).h@ == compress_spec(old(self).h@, old(self).t, message_words(buffer@), is_last),
            final(self).t == old(self).t,
            final(self).outlen == old(self).outlen,
    {
        let mut m = [0u64; 16];
        let mut i: usize = 0;
        while i < 16
            invariant
                0 <= i <= 16,
                buffer@.len() == 128,
                forall|j: int| 0 <= j < i ==> m[j] == #[trigger] message_words(buffer@)[j],
            decreases 16 - i,
        {
            let o = i * 8;
            m[i] = (buffer[o] as u64) + (buffer[o + 1] as u64) * 0x100 + (buffer[o + 2] as u64)
                * 0x1_0000 + (buffer[o + 3] as u64) * 0x100_0000 + (buffer[o + 4] as u64)
                * 0x1_0000_0000 + (buffer[o + 5] as u64) * 0x100_0000_0000 + (buffer[o + 6] as u64)
                * 0x1_0000_0000_0000 + (buffer[o + 7] as u64) * 0x100_0000_0000_0000;
            i += 1;
        }
        assert(m@ =~= message_words(buffer@));

        let mut v: [u64; 16] = [
            self.h[0],
            self.h[1],
            self.h[2],
            self.h[3],
            self.h[4],
            self.h[5],
            self.h[6],
            self.h[7],
            BLAKE2B_IV[0],
            BLAKE2B_IV[1],
            BLAKE2B_IV[2],
            BLAKE2B_IV[3],
            BLAKE2B_IV[4] ^ self.t,
            BLAKE2B_IV[5],
            if is_last { !BLAKE2B_IV[6] } else { BLAKE2B_IV[6] },
            BLAKE2B_IV[7],
        ];
        let ghost v0 = initial_work(self.h@, self.t, is_last);
        assert(v@ =~= v0);

        let mut round: usize = 0;
        while round < 12
            invariant
                0 <= round <= 12,
                m@ == message_words(buffer@),
                v@ == rounds_spec(v0, m@, round as nat),
            decreases 12 - round,
        {
            let s = &SIGMA[round];
            proof {
                assert forall|k: int| 0 <= k < 16 implies s[k] < 16 by {
                    lemma_sigma_bounds(round as int, k);
                }
            }
            Self::g(&mut v, 0, 4, 8, 12, m[s[0]], m[s[1]]);
            Self::g(&mut v, 1, 5, 9, 13, m[s[2]], m[s[3]]);
            Self::g(&mut v, 2, 6, 10, 14, m[s[4]], m[s[5]]);
            Self::g(&mut v, 3, 7, 11, 15, m[s[6]], m[s[7]]);
            Self::g(&mut v, 0, 5, 10, 15, m[s[8]], m[s[9]]);
            Self::g(&mut v, 1, 6, 11, 12, m[s[10]], m[s[11]]);
            Self::g(&mut v, 2, 7, 8, 13, m[s[12]], m[s[13]]);
            Self::g(&mut v, 3, 4, 9, 14, m[s[14]], m[s[15]]);
            proof {
                reveal(round_spec);
            }
            round += 1;
        }

        let ghost h0 = self.h@;
        let mut i: usize = 0;
        while i < 8
            invariant
                0 <= i <= 8,
                v@ == rounds_spec(v0, m@, 12),
                h0.len() == 8,
                forall|j: int| 0 <= j < i ==> self.h[j] == h0[j] ^ (v[j] ^ v[j + 8]),
                forall|j: int| i <= j < 8 ==> self.h[j] == h0[j],
                self.t == old(self).t,
                self.outlen == old(self).outlen,
                h0 == old(self).h@,
            decreases 8 - i,
        {
            self.h[i] = self.h[i] ^ (v[i] ^ v[i + 8]);
            i += 1;
        }
        assert(self.h@ =~= compress_spec(h0, old(self).t, message_words(buffer@), is_last));
    }

    /// The mixing function G, applied in place.
    fn g(v: &mut [u64; 16], a: usize, b: usize, c: usize, d: usize, x: u64, y: u64)
        requires
            a < 16,
            b < 16,
            c < 16,
            d < 16,
            a != b,
            a != c,
            a != d,
            b != c,
            b != d,
            c != d,
        ensures
            final(v)@ == g_spec(old(v)@, a as int, b as int, c as int, d as int, x, y),
    {
        v[a] = add64_exec(add64_exec(v[a], v[b]), x);
        v[d] = rotr64(v[d] ^ v[a], 32);
        v[c] = add64_exec(v[c], v[d]);
        v[b] = rotr64(v[b] ^ v[c], 24);
        v[a] = add64_exec(add64_exec(v[a], v[b]), y);
        v[d] = rotr64(v[d] ^ v[a], 16);
        v[c] = add64_exec(v[c], v[d]);
        v[b] = rotr64(v[b] ^ v[c], 63);
        assert(v@ =~= g_spec(old(v)@, a as int, b as int, c as int, d as int, x, y));
    }
}

fn le_bytes_u64(w: u64) -> (r: [u8; 8])
    ensures
        r@ == word_le_bytes(w),
{
    let r = [
        (w % 0x100) as u8,
        ((w / 0x100) % 0x100) as u8,
        ((w / 0x1_0000) % 0x100) as u8,
        ((w / 0x100_0000) % 0x100) as u8,
        ((w / 0x1_0000_0000) % 0x100) as u8,
        ((w / 0x100_0000_0000) % 0x100) as u8,
        ((w / 0x1_0000_0000_0000) % 0x100) as u8,
        ((w / 0x100_0000_0000_0000) % 0x100) as u8,
    ];
    assert(r@ =~= word_le_bytes(w));
    r
}

/// Appends the first `count` little-endian bytes of `w` to `out`.
fn extend_le_bytes(out: &mut Vec<u8>, w: u64, count: usize)
    requires
        count <= 8,
    ensures
        final(out)@ == old(out)@ + word_le_bytes(w).take(count as int),
{
    let bytes = le_bytes_u64(w);
    let mut j: usize = 0;
    while j < count
        invariant
            0 <= j <= count <= 8,
            bytes@ == word_le_bytes(w),
            out@ == old(out)@ + word_le_bytes(w).take(j as int),
        decreases count - j,
    {
        out.push(bytes[j]);
        j += 1;
        assert(out@ =~= old(out)@ + word_le_bytes(w).take(j as int));
    }
}

/// The BLAKE2b-256 digest of a message of exactly one 128-byte block: a
/// fresh 32-byte context, the block compressed as the last one with a byte
/// count of 128, and the first 32 state bytes.
pub open spec fn blake2b_256_one_block(block: Seq<u8>) -> Seq<u8> {
    digest_bytes(compress_spec(initial_state(32), 128, message_words(block), true), 32)
}

/// The 32-bit hash value of a state (its first word reduced to 32 bits)
/// is the little-endian value of the first four bytes of its digest,
/// for any digest of at least four bytes.
pub proof fn lemma_hash_value_is_digest_prefix(h: Seq<u64>, outlen: nat)
    requires
        h.len() == 8,
        4 <= outlen <= 64,
    ensures
        le_u32_at(digest_bytes(h, outlen), 0) == h[0] % 0x1_0000_0000,
{
    let w = h[0];
    let d = digest_bytes(h, outlen);
    assert(d[0] == word_le_bytes(w)[0]);
    assert(d[1] == word_le_bytes(w)[1]);
    assert(d[2] == word_le_bytes(w)[2]);
    assert(d[3] == word_le_bytes(w)[3]);
    assert((w % 0x100) + ((w / 0x100) % 0x100) * 0x100 + ((w / 0x1_0000) % 0x100) * 0x1_0000 + ((w
        / 0x100_0000) % 0x100) * 0x100_0000 == w % 0x1_0000_0000) by (bit_vector);
}

proof fn lemma_rotr64_injective(x: u64, y: u64, n: u32)
    requires
        0 < n < 64,
        rotr64_spec(x, n as nat) == rotr64_spec(y, n as nat),
    ensures
        x == y,
{
    lemma_rotr64(x, n);
    lemma_rotr64(y, n);
    let m: u32 = (64 - n) as u32;
    assert(x == y) by (bit_vector)
        requires
            0 < n < 64,
            m == 64 - n,
            (x >> n) | (x << m) == (y >> n) | (y << m),
    ;
}

proof fn lemma_add64_cancel(x: u64, y: u64, c: u64)
    requires
        add64(x, c) == add64(y, c),
    ensures
        x == y,
{
    let m: int = 0x1_0000_0000_0000_0000;
    assert((x + c) % m == if x + c < m { x + c } else { x + c - m });
    assert((y + c) % m == if y + c < m { y + c } else { y + c - m });
}

proof fn lemma_xor_cancel(x: u64, y: u64, c: u64)
    requires
        x ^ c == y ^ c,
    ensures
        x == y,
{
    assert(x == y) by (bit_vector)
        requires
            x ^ c == y ^ c,
    ;
}

/// For fixed positions and message words, G is injective: two working
/// vectors that G maps to the same vector were the same.
pub proof fn lemma_g_injective(
    v1: Seq<u64>,
    v2: Seq<u64>,
    a: int,
    b: int,
    c: int,
    d: int,
    x: u64,
    y: u64,
)
    requires
        v1.len() == 16,
        v2.len() == 16,
        0 <= a < 16,
        0 <= b < 16,
        0 <= c < 16,
        0 <= d < 16,
        a != b,
        a != c,
        a != d,
        b != c,
        b != d,
        c != d,
        g_spec(v1, a, b, c, d, x, y) == g_spec(v2, a, b, c, d, x, y),
    ensures
        v1 == v2,
{
    let w1 = g_spec(v1, a, b, c, d, x, y);
    let w2 = g_spec(v2, a, b, c, d, x, y);
    let va1_1 = add64(add64(v1[a], v1[b]), x);
    let vd1_1 = rotr64_spec(v1[d] ^ va1_1, 32);
    let vc1_1 = add64(v1[c], vd1_1);
    let vb1_1 = rotr64_spec(v1[b] ^ vc1_1, 24);
    let va2_1 = add64(add64(va1_1, vb1_1), y);
    let vd2_1 = rotr64_spec(vd1_1 ^ va2_1, 16);
    let vc2_1 = add64(vc1_1, vd2_1);
    let va1_2 = add64(add64(v2[a], v2[b]), x);
    let vd1_2 = rotr64_spec(v2[d] ^ va1_2, 32);
    let vc1_2 = add64(v2[c], vd1_2);
    let vb1_2 = rotr64_spec(v2[b] ^ vc1_2, 24);
    let va2_2 = add64(add64(va1_2, vb1_2), y);
    let vd2_2 = rotr64_spec(vd1_2 ^ va2_2, 16);
    let vc2_2 = add64(vc1_2, vd2_2);
    assert(w1[a] == va2_1 && w1[b] == rotr64_spec(vb1_1 ^ vc2_1, 63) && w1[c] == vc2_1 && w1[d]
        == vd2_1);
    assert(w2[a] == va2_2 && w2[b] == rotr64_spec(vb1_2 ^ vc2_2, 63) && w2[c] == vc2_2 && w2[d]
        == vd2_2);
    // the last step of each line, undone in reverse order
    lemma_rotr64_injective(vb1_1 ^ vc2_1, vb1_2 ^ vc2_2, 63);
    lemma_xor_cancel(vb1_1, vb1_2, vc2_1);
    lemma_add64_cancel(vc1_1, vc1_2, vd2_1);
    lemma_rotr64_injective(vd1_1 ^ va2_1, vd1_2 ^ va2_2, 16);
    lemma_xor_cancel(vd1_1, vd1_2, va2_1);
    lemma_add64_cancel(add64(va1_1, vb1_1), add64(va1_2, vb1_2), y);
    lemma_add64_cancel(va1_1, va1_2, vb1_1);
    lemma_rotr64_injective(v1[b] ^ vc1_1, v2[b] ^ vc1_2, 24);
    lemma_xor_cancel(v1[b], v2[b], vc1_1);
    lemma_add64_cancel(v1[c], v2[c], vd1_1);
    lemma_rotr64_injective(v1[d] ^ va1_1, v2[d] ^ va1_2, 32);
    lemma_xor_cancel(v1[d], v2[d], va1_1);
    lemma_add64_cancel(add64(v1[a], v1[b]), add64(v2[a], v2[b]), x);
    lemma_add64_cancel(v1[a], v2[a], v1[b]);
    assert forall|i: int| 0 <= i < 16 implies v1[i] == v2[i] by {
        if i != a && i != b && i != c && i != d {
            assert(w1[i] == v1[i] && w2[i] == v2[i]);
        }
    }
    assert(v1 =~= v2);
}

/// Block `i` of a message, 128 bytes, with zeros past the message's end.
pub open spec fn padded_block(msg: Seq<u8>, i: nat) -> Seq<u8> {
    Seq::new(128, |j: int| if i * 128 + j < msg.len() { msg[i * 128 + j] } else { 0u8 })
}

/// The number of blocks a message is cut into: one for the empty
/// message, otherwise its length divided by 128, rounded up.
pub open spec fn block_count(msg: Seq<u8>) -> nat {
    if msg.len() == 0 {
        1
    } else {
        ((msg.len() + 127) / 128) as nat
    }
}

/// The state after the first `n` blocks of `msg` are compressed as
/// blocks that are not the last, each with the byte count at its end.
pub open spec fn compress_blocks(h: Seq<u64>, msg: Seq<u8>, n: nat) -> Seq<u64>
    decreases n,
{
    if n == 0 {
        h
    } else {
        compress_spec(
            compress_blocks(h, msg, (n - 1) as nat),
            (n * 128) as u64,
            message_words(padded_block(msg, (n - 1) as nat)),
            false,
        )
    }
}

/// Unkeyed BLAKE2b with a digest of `outlen` bytes, as RFC 7693 defines
/// it, for messages shorter than 2^64 bytes (so the byte counter's high
/// word stays zero): every block but the last compressed with the count
/// at its end, the zero-padded last block compressed as the last one
/// with the message length, then the first `outlen` state bytes.
pub open spec fn blake2b_spec(msg: Seq<u8>, outlen: usize) -> Seq<u8> {
    let last = (block_count(msg) - 1) as nat;
    let h = compress_blocks(initial_state(outlen), msg, last);
    digest_bytes(
        compress_spec(h, msg.len() as u64, message_words(padded_block(msg, last)), true),
        outlen as nat,
    )
}

/// A message of at most 128 bytes, zero-padded to a block, compressed once
/// as the last block from a fresh state with its length as the byte
/// count, and finalized, gives its unkeyed BLAKE2b digest. In particular
/// the one-block BLAKE2b-256 of a 128-byte block is BLAKE2b-256 of it.
pub proof fn lemma_one_block_is_blake2b(buf: Seq<u8>, n: nat, outlen: usize)
    requires
        buf.len() == 128,
        n <= 128,
        forall|j: int| n <= j < 128 ==> buf[j] == 0,
    ensures
        digest_bytes(
            compress_spec(initial_state(outlen), n as u64, message_words(buf), true),
            outlen as nat,
        ) == blake2b_spec(buf.take(n as int), outlen),
        n == 128 && outlen == 32 ==> blake2b_256_one_block(buf) == blake2b_spec(buf, 32),
{
    let msg = buf.take(n as int);
    assert(block_count(msg) == 1);
    assert(padded_block(msg, 0) =~= buf);
    assert(msg.len() as u64 == n as u64);
    if n == 128 {
        assert(msg =~= buf);
    }
}

/// A fresh state is the IV with the parameter block xored into its first
/// word: 0x01010000 (fanout 1, depth 1, no key) and the digest length
/// itself. Two lengths give first words that differ by exactly their xor,
/// the low byte is the IV's 0x08 xored with the length, and the other
/// seven words are the IV's.
pub proof fn lemma_initial_state_parameter_block(n: usize, m: usize)
    requires
        0 < n <= 64,
        0 < m <= 64,
    ensures
        initial_state(n).len() == 8,
        initial_state(n)[0] == 0x6a09e667f3bcc908u64 ^ 0x01010000u64 ^ (n as u64),
        initial_state(n)[0] ^ initial_state(m)[0] == (n as u64) ^ (m as u64),
        initial_state(n)[0] & 0xff == 0x08u64 ^ (n as u64),
        forall|i: int| 1 <= i < 8 ==> #[trigger] initial_state(n)[i] == BLAKE2B_IV[i],
        initial_state(n)[1] == 0xbb67ae8584caa73bu64,
        initial_state(n)[7] == 0x5be0cd19137e2179u64,
{
    let a = n as u64;
    let b = m as u64;
    let iv0 = 0x6a09e667f3bcc908u64;
    assert(BLAKE2B_IV[0] == iv0);
    assert(initial_state(n)[0] == iv0 ^ (0x01010000u64 ^ a));
    assert(initial_state(m)[0] == iv0 ^ (0x01010000u64 ^ b));
    assert(iv0 ^ (0x01010000u64 ^ a) == iv0 ^ 0x01010000u64 ^ a) by (bit_vector);
    assert((iv0 ^ (0x01010000u64 ^ a)) ^ (iv0 ^ (0x01010000u64 ^ b)) == a ^ b) by (bit_vector);
    assert((iv0 ^ (0x01010000u64 ^ a)) & 0xff == 0x08u64 ^ a) by (bit_vector)
        requires
            a <= 64,
            iv0 == 0x6a09e667f3bcc908u64,
    ;
}

/// The working vector that compression starts from, word by word, as RFC
/// 7693 lays it out: the eight state words, the first four IV words, the
/// fifth IV word xored with the byte counter (for every block, last or
/// not), the sixth IV word (the counter's high word is zero), the seventh
/// IV word inverted exactly for the last block, and the eighth IV word.
pub proof fn lemma_initial_work_layout(h: Seq<u64>, t: u64, is_last: bool)
    requires
        h.len() == 8,
    ensures
        initial_work(h, t, is_last).len() == 16,
        forall|i: int| 0 <= i < 8 ==> #[trigger] initial_work(h, t, is_last)[i] == h[i],
        initial_work(h, t, is_last)[8] == 0x6a09e667f3bcc908u64,
        initial_work(h, t, is_last)[9] == 0xbb67ae8584caa73bu64,
        initial_work(h, t, is_last)[10] == 0x3c6ef372fe94f82bu64,
        initial_work(h, t, is_last)[11] == 0xa54ff53a5f1d36f1u64,
        initial_work(h, t, is_last)[12] == 0x510e527fade682d1u64 ^ t,
        initial_work(h, t, is_last)[13] == 0x9b05688c2b3e6c1fu64,
        initial_work(h, t, is_last)[14] == if is_last {
            !0x1f83d9abfb41bd6bu64
        } else {
            0x1f83d9abfb41bd6bu64
        },
        initial_work(h, t, is_last)[15] == 0x5be0cd19137e2179u64,
        initial_work(h, t, true)[12] == initial_work(h, t, false)[12],
{
    assert(initial_work(h, t, true)[12] == BLAKE2B_IV[4] ^ t);
    assert(initial_work(h, t, false)[12] == BLAKE2B_IV[4] ^ t);
}

/// Message word `i` of a block is the little-endian integer of bytes
/// `8i .. 8i + 8`: its value is their weighted sum, and writing it back out
/// little-endian gives exactly those bytes.
pub proof fn lemma_message_words_little_endian(block: Seq<u8>, i: int)
    requires
        block.len() == 128,
        0 <= i < 16,
    ensures
        message_words(block).len() == 16,
        message_words(block)[i] == block[8 * i] + block[8 * i + 1] * 0x100 + block[8 * i + 2]
            * 0x1_0000 + block[8 * i + 3] * 0x100_0000 + block[8 * i + 4] * 0x1_0000_0000
            + block[8 * i + 5] * 0x100_0000_0000 + block[8 * i + 6] * 0x1_0000_0000_0000
            + block[8 * i + 7] * 0x100_0000_0000_0000,
        word_le_bytes(message_words(block)[i]) == block.subrange(8 * i, 8 * i + 8),
{
    let o = 8 * i;
    let b0 = block[o];
    let b1 = block[o + 1];
    let b2 = block[o + 2];
    let b3 = block[o + 3];
    let b4 = block[o + 4];
    let b5 = block[o + 5];
    let b6 = block[o + 6];
    let b7 = block[o + 7];
    let w = message_words(block)[i];
    assert(w == le_u64_at(block, o));
    assert(b0 + b1 * 0x100 + b2 * 0x1_0000 + b3 * 0x100_0000 + b4 * 0x1_0000_0000 + b5
        * 0x100_0000_0000 + b6 * 0x1_0000_0000_0000 + b7 * 0x100_0000_0000_0000
        <= 0xffff_ffff_ffff_ffff);
    assert(w % 0x100 == b0 && (w / 0x100) % 0x100 == b1 && (w / 0x1_0000) % 0x100 == b2 && (w
        / 0x100_0000) % 0x100 == b3 && (w / 0x1_0000_0000) % 0x100 == b4 && (w / 0x100_0000_0000)
        % 0x100 == b5 && (w / 0x1_0000_0000_0000) % 0x100 == b6 && (w / 0x100_0000_0000_0000)
        % 0x100 == b7) by (bit_vector)
        requires
            w == (b0 as u64) + (b1 as u64) * 0x100 + (b2 as u64) * 0x1_0000 + (b3 as u64)
                * 0x100_0000 + (b4 as u64) * 0x1_0000_0000 + (b5 as u64) * 0x100_0000_0000 + (
            b6 as u64) * 0x1_0000_0000_0000 + (b7 as u64) * 0x100_0000_0000_0000,
    ;
    assert(word_le_bytes(w) =~= block.subrange(o, o + 8));
}

/// Byte `k` of a digest is byte `k % 8` of state word `k / 8`, that is
/// `(h[k / 8] >> (8 * (k % 8))) & 0xff`; and a shorter digest is a prefix
/// of a longer one from the same state.
pub proof fn lemma_digest_bytes_encoding(h: Seq<u64>, n: nat, m: nat)
    requires
        h.len() == 8,
        n <= m <= 64,
    ensures
        digest_bytes(h, n).len() == n,
        forall|k: int|
            0 <= k < n ==> #[trigger] digest_bytes(h, n)[k] as u64 == (h[k / 8] >> (8 * (k % 8)) as u64)
                & 0xff,
        digest_bytes(h, n) == digest_bytes(h, m).take(n as int),
{
    assert forall|k: int| 0 <= k < n implies #[trigger] digest_bytes(h, n)[k] as u64 == (h[k / 8]
        >> (8 * (k % 8)) as u64) & 0xff by {
        let w = h[k / 8];
        let j = k % 8;
        assert(w % 0x100 == (w >> 0u64) & 0xff) by (bit_vector);
        assert((w / 0x100) % 0x100 == (w >> 8u64) & 0xff) by (bit_vector);
        assert((w / 0x1_0000) % 0x100 == (w >> 16u64) & 0xff) by (bit_vector);
        assert((w / 0x100_0000) % 0x100 == (w >> 24u64) & 0xff) by (bit_vector);
        assert((w / 0x1_0000_0000) % 0x100 == (w >> 32u64) & 0xff) by (bit_vector);
        assert((w / 0x100_0000_0000) % 0x100 == (w >> 40u64) & 0xff) by (bit_vector);
        assert((w / 0x1_0000_0000_0000) % 0x100 == (w >> 48u64) & 0xff) by (bit_vector);
        assert((w / 0x100_0000_0000_0000) % 0x100 == (w >> 56u64) & 0xff) by (bit_vector);
        assert(0 <= j < 8);
    }
    assert(digest_bytes(h, n) =~= digest_bytes(h, m).take(n as int));
}

proof fn lemma_add3_mod(p: u64, q: u64, r: u64)
    ensures
        add64(add64(p, q), r) == ((p + q + r) % 0x1_0000_0000_0000_0000) as u64,
{
    let m: int = 0x1_0000_0000_0000_0000;
    let s1: int = if p + q < m { p + q } else { p + q - m };
    assert((p + q) % m == s1);
    let s2: int = if s1 + r < m { s1 + r } else { s1 + r - m };
    assert((s1 + r) % m == s2);
    assert((p + q + r) % m == s2) by {
        if p + q + r < m {
        } else if p + q + r < 2 * m {
        } else {
            assert((p + q + r) % m == p + q + r - 2 * m);
        }
    }
}

/// G as RFC 7693 writes it, with wrapping additions and rotations by 32,
/// 24, 16 and 63 spelled out as shifts: it replaces the words at `a`, `b`,
/// `c`, `d` and keeps every other word.
pub proof fn lemma_g_rfc(v: Seq<u64>, a: int, b: int, c: int, d: int, x: u64, y: u64)
    requires
        v.len() == 16,
        0 <= a < 16,
        0 <= b < 16,
        0 <= c < 16,
        0 <= d < 16,
        a != b,
        a != c,
        a != d,
        b != c,
        b != d,
        c != d,
    ensures
        ({
            let m: int = 0x1_0000_0000_0000_0000;
            let va1 = ((v[a] + v[b] + x) % m) as u64;
            let e1 = v[d] ^ va1;
            let vd1 = (e1 >> 32u64) | (e1 << 32u64);
            let vc1 = ((v[c] + vd1) % m) as u64;
            let e2 = v[b] ^ vc1;
            let vb1 = (e2 >> 24u64) | (e2 << 40u64);
            let va2 = ((va1 + vb1 + y) % m) as u64;
            let e3 = vd1 ^ va2;
            let vd2 = (e3 >> 16u64) | (e3 << 48u64);
            let vc2 = ((vc1 + vd2) % m) as u64;
            let e4 = vb1 ^ vc2;
            let vb2 = (e4 >> 63u64) | (e4 << 1u64);
            let w = g_spec(v, a, b, c, d, x, y);
            &&& w.len() == 16
            &&& w[a] == va2
            &&& w[b] == vb2
            &&& w[c] == vc2
            &&& w[d] == vd2
            &&& forall|i: int|
                0 <= i < 16 && i != a && i != b && i != c && i != d ==> #[trigger] w[i] == v[i]
        }),
{
    let m: int = 0x1_0000_0000_0000_0000;
    lemma_add3_mod(v[a], v[b], x);
    let va1 = add64(add64(v[a], v[b]), x);
    let e1 = v[d] ^ va1;
    lemma_rotr64(e1, 32);
    let vd1 = rotr64_spec(e1, 32);
    assert(vd1 == (e1 >> 32u64) | (e1 << 32u64));
    let vc1 = add64(v[c], vd1);
    assert(vc1 == ((v[c] + vd1) % m) as u64);
    let e2 = v[b] ^ vc1;
    lemma_rotr64(e2, 24);
    let vb1 = rotr64_spec(e2, 24);
    assert(vb1 == (e2 >> 24u64) | (e2 << 40u64));
    lemma_add3_mod(va1, vb1, y);
    let va2 = add64(add64(va1, vb1), y);
    let e3 = vd1 ^ va2;
    lemma_rotr64(e3, 16);
    let vd2 = rotr64_spec(e3, 16);
    assert(vd2 == (e3 >> 16u64) | (e3 << 48u64));
    let vc2 = add64(vc1, vd2);
    let e4 = vb1 ^ vc2;
    lemma_rotr64(e4, 63);
    let vb2 = rotr64_spec(e4, 63);
    assert(vb2 == (e4 >> 63u64) | (e4 << 1u64));
}

/// The message schedule: every row is a permutation of the sixteen word
/// indices, the first row is the identity, and rounds 10 and 11 reuse the
/// rows of rounds 0 and 1 (RFC 7693 takes row `r mod 10`).
pub proof fn lemma_sigma_schedule(r: int)
    requires
        0 <= r < 12,
    ensures
        forall|i: int, j: int|
            0 <= i < 16 && 0 <= j < 16 && i != j ==> #[trigger] SIGMA[r][i] != #[trigger] SIGMA[r][j],
        forall|i: int| 0 <= i < 16 ==> #[trigger] SIGMA[r][i] < 16,
        forall|i: int| 0 <= i < 16 ==> #[trigger] SIGMA[0][i] == i,
        forall|i: int| 0 <= i < 16 ==> #[trigger] SIGMA[r][i] == SIGMA[r % 10][i],
{
    assert forall|i: int| 0 <= i < 16 implies #[trigger] SIGMA[r][i] < 16 by {
        lemma_sigma_bounds(r, i);
    }
}

} // verus!
