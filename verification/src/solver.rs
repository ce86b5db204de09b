//! The proof-of-work search: pad the puzzle, try nonces in its last four
//! bytes, and keep the first digest whose little-endian prefix is below
//! the threshold.

use vstd::prelude::*;

use crate::blake2b_simd::{
    blake2b_256_one_block, blake2b_spec, le_u32_at, lemma_hash_value_is_digest_prefix,
    lemma_one_block_is_blake2b, Blake2bSimdContext,
};

use blake2::Digest;

verus! {

/// Size of the puzzle buffer that is hashed, in bytes.
pub const CHALLENGE_SIZE_BYTES: usize = 128;

/// What the blake2 crate's BLAKE2b with a 32-byte output computes for a
/// byte string.
pub uninterp spec fn blake2b_256_digest(data: Seq<u8>) -> Seq<u8>;

/// Hashes `data` with the blake2 crate (`Blake2b::<U32>::new()`,
/// `chain_update`, `finalize`). Claimed: the digest depends on the bytes of
/// `data` alone and is 32 bytes long (the output size `U32`). What the
/// digest is, is not stated.
#[verifier::external_body]
fn blake2b_256(data: &[u8]) -> (digest: Vec<u8>)
    ensures
        digest@ == blake2b_256_digest(data@),
        digest@.len() == 32,
{
    blake2::Blake2b::<blake2::digest::consts::U32>::new().chain_update(data).finalize().to_vec()
}

/// The four little-endian bytes of a 32-bit nonce.
pub open spec fn nonce_le_bytes(n: u32) -> Seq<u8> {
    seq![
        (n % 0x100) as u8,
        ((n / 0x100) % 0x100) as u8,
        ((n / 0x1_0000) % 0x100) as u8,
        ((n / 0x100_0000) % 0x100) as u8,
    ]
}

/// The buffer with its last four bytes replaced by the nonce.
#[verifier::opaque]
pub open spec fn with_nonce(buf: Seq<u8>, nonce: u32) -> Seq<u8> {
    buf.subrange(0, 124) + nonce_le_bytes(nonce)
}

/// The puzzle followed by zero bytes up to the buffer size.
pub open spec fn padded(puzzle: Seq<u8>) -> Seq<u8> {
    puzzle + Seq::new((128 - puzzle.len()) as nat, |i: int| 0u8)
}

/// Trying the nonces `nonce`, `nonce + 1`, ..., `end - 1` in turn on `buf`:
/// the first whose digest has a little-endian 32-bit prefix below
/// `threshold` gives that digest and the buffer it was computed from; if
/// none does, the result is empty and the buffer is the last one tried.
pub open spec fn search(
    buf: Seq<u8>,
    threshold: u32,
    nonce: int,
    end: int,
    hash: spec_fn(Seq<u8>) -> Seq<u8>,
) -> (Seq<u8>, Seq<u8>)
    decreases end - nonce,
{
    if nonce >= end {
        (Seq::empty(), buf)
    } else {
        let b = with_nonce(buf, nonce as u32);
        let d = hash(b);
        if le_u32_at(d, 0) < threshold {
            (d, b)
        } else {
            search(b, threshold, nonce + 1, end, hash)
        }
    }
}

/// The outcome of a solve call on a solver whose buffer is `buffer`: the
/// returned digest and the buffer afterwards. A puzzle that is empty or
/// longer than the buffer gives an empty result and leaves the buffer
/// alone. Otherwise the padded puzzle's last four bytes give the first
/// nonce, and `max_attempts` nonces are tried up to the wrapped end; when
/// the end wraps below the start nothing is tried.
pub open spec fn solve_outcome(
    buffer: Seq<u8>,
    puzzle: Seq<u8>,
    threshold: u32,
    max_attempts: u32,
    hash: spec_fn(Seq<u8>) -> Seq<u8>,
) -> (Seq<u8>, Seq<u8>) {
    if puzzle.len() == 0 || puzzle.len() > 128 {
        (Seq::empty(), buffer)
    } else {
        let p = padded(puzzle);
        let start = le_u32_at(p, 124);
        let end = (start + max_attempts) % 0x1_0000_0000;
        search(p, threshold, start as int, end as int, hash)
    }
}

/// Writing a nonce keeps the first 124 bytes and puts the nonce's bytes,
/// least significant first, at 124 to 127, so that reading them back
/// little-endian gives the nonce.
pub proof fn lemma_with_nonce(buf: Seq<u8>, k: u32)
    requires
        buf.len() == 128,
    ensures
        with_nonce(buf, k).len() == 128,
        with_nonce(buf, k).subrange(0, 124) == buf.subrange(0, 124),
        with_nonce(buf, k)[124] as u32 == k & 0xff,
        with_nonce(buf, k)[125] as u32 == (k >> 8u32) & 0xff,
        with_nonce(buf, k)[126] as u32 == (k >> 16u32) & 0xff,
        with_nonce(buf, k)[127] as u32 == k >> 24u32,
        le_u32_at(with_nonce(buf, k), 124) == k,
{
    assert((k % 0x100) == k & 0xff && (k / 0x100) % 0x100 == (k >> 8u32) & 0xff && (k / 0x1_0000)
        % 0x100 == (k >> 16u32) & 0xff && (k / 0x100_0000) % 0x100 == k >> 24u32) by (bit_vector);
    reveal(with_nonce);
    let b = with_nonce(buf, k);
    assert(b.subrange(0, 124) =~= buf.subrange(0, 124));
    assert(b[124] == (k % 0x100) as u8);
    assert(b[125] == ((k / 0x100) % 0x100) as u8);
    assert(b[126] == ((k / 0x1_0000) % 0x100) as u8);
    assert(b[127] == ((k / 0x100_0000) % 0x100) as u8);
    assert((k % 0x100) + ((k / 0x100) % 0x100) * 0x100 + ((k / 0x1_0000) % 0x100) * 0x1_0000 + ((k
        / 0x100_0000) % 0x100) * 0x100_0000 == k) by (bit_vector);
}

proof fn lemma_with_nonce_twice(buf: Seq<u8>, k: u32, j: u32)
    requires
        buf.len() == 128,
    ensures
        with_nonce(with_nonce(buf, k), j) == with_nonce(buf, j),
{
    reveal(with_nonce);
    assert(with_nonce(with_nonce(buf, k), j) =~= with_nonce(buf, j));
}

/// What a run of `search` gives: the buffer keeps its first 124 bytes; a
/// found digest is the hash of the final buffer and lies below the
/// threshold, the final buffer holds the first nonce in range that
/// solves, and no earlier nonce does; an empty result means no nonce in
/// range gives a nonempty digest below the threshold.
proof fn lemma_search(
    buf: Seq<u8>,
    threshold: u32,
    nonce: int,
    end: int,
    hash: spec_fn(Seq<u8>) -> Seq<u8>,
)
    requires
        buf.len() == 128,
        0 <= nonce,
        end <= 0x1_0000_0000,
    ensures
        search(buf, threshold, nonce, end, hash).1.len() == 128,
        search(buf, threshold, nonce, end, hash).1.subrange(0, 124) == buf.subrange(0, 124),
        search(buf, threshold, nonce, end, hash).0.len() > 0 ==> {
            let (r, b) = search(buf, threshold, nonce, end, hash);
            let n = le_u32_at(b, 124);
            &&& r == hash(b)
            &&& le_u32_at(r, 0) < threshold
            &&& nonce <= n < end
            &&& b == with_nonce(buf, n as u32)
            &&& forall|k: int|
                nonce <= k < n ==> !(le_u32_at(#[trigger] hash(with_nonce(buf, k as u32)), 0)
                    < threshold)
        },
        (forall|x: Seq<u8>| #[trigger] hash(x).len() > 0) && search(
            buf,
            threshold,
            nonce,
            end,
            hash,
        ).0.len() == 0 ==> forall|k: int|
            nonce <= k < end ==> !(le_u32_at(#[trigger] hash(with_nonce(buf, k as u32)), 0)
                < threshold),
    decreases end - nonce,
{
    if nonce < end {
        let b = with_nonce(buf, nonce as u32);
        lemma_with_nonce(buf, nonce as u32);
        let d = hash(b);
        if le_u32_at(d, 0) < threshold {
        } else {
            lemma_search(b, threshold, nonce + 1, end, hash);
            let (r, bb) = search(b, threshold, nonce + 1, end, hash);
            assert(search(buf, threshold, nonce, end, hash) == (r, bb));
            assert forall|k: int| nonce < k < end implies #[trigger] with_nonce(b, k as u32)
                == with_nonce(buf, k as u32) by {
                lemma_with_nonce_twice(buf, nonce as u32, k as u32);
            }
            if r.len() > 0 {
                let n = le_u32_at(bb, 124);
                lemma_with_nonce_twice(buf, nonce as u32, n as u32);
                assert forall|k: int| nonce <= k < n implies !(le_u32_at(
                    #[trigger] hash(with_nonce(buf, k as u32)),
                    0,
                ) < threshold) by {
                    if k > nonce {
                        assert(with_nonce(b, k as u32) == with_nonce(buf, k as u32));
                    }
                }
            } else if forall|x: Seq<u8>| #[trigger] hash(x).len() > 0 {
                assert forall|k: int| nonce <= k < end implies !(le_u32_at(
                    #[trigger] hash(with_nonce(buf, k as u32)),
                    0,
                ) < threshold) by {
                    if k > nonce {
                        assert(with_nonce(b, k as u32) == with_nonce(buf, k as u32));
                    }
                }
            }
        }
    }
}

/// A solve call keeps a 128-byte buffer. A puzzle that is empty or longer
/// than the buffer gives an empty result and leaves the buffer as it was.
/// Otherwise only the last four bytes of the padded puzzle change, and a
/// returned digest is the hash of the kept buffer and lies below the
/// threshold.
pub proof fn lemma_solution_is_checked(
    buffer: Seq<u8>,
    puzzle: Seq<u8>,
    threshold: u32,
    max_attempts: u32,
    hash: spec_fn(Seq<u8>) -> Seq<u8>,
)
    requires
        buffer.len() == 128,
    ensures
        solve_outcome(buffer, puzzle, threshold, max_attempts, hash).1.len() == 128,
        puzzle.len() == 0 || puzzle.len() > 128 ==> solve_outcome(
            buffer,
            puzzle,
            threshold,
            max_attempts,
            hash,
        ) == (Seq::<u8>::empty(), buffer),
        0 < puzzle.len() <= 128 ==> solve_outcome(
            buffer,
            puzzle,
            threshold,
            max_attempts,
            hash,
        ).1.subrange(0, 124) == padded(puzzle).subrange(0, 124),
        ({
            let (r, b) = solve_outcome(buffer, puzzle, threshold, max_attempts, hash);
            r.len() > 0 ==> r == hash(b) && le_u32_at(r, 0) < threshold
        }),
{
    if 0 < puzzle.len() <= 128 {
        let p = padded(puzzle);
        let start = le_u32_at(p, 124);
        let end = (start + max_attempts) % 0x1_0000_0000;
        lemma_search(p, threshold, start as int, end as int, hash);
    }
}

/// For a puzzle that fits, the solver tries the nonces from the one held
/// in the padded puzzle's last four bytes up to the wrapped end, in order:
/// it returns the digest for the first that solves, keeping that nonce in
/// the buffer; when the hash never gives an empty digest, it returns
/// nothing only if no nonce in that range solves. The buffer it had
/// before plays no part.
pub proof fn lemma_first_solution(
    buffer: Seq<u8>,
    puzzle: Seq<u8>,
    threshold: u32,
    max_attempts: u32,
    hash: spec_fn(Seq<u8>) -> Seq<u8>,
)
    requires
        buffer.len() == 128,
        0 < puzzle.len() <= 128,
    ensures
        ({
            let p = padded(puzzle);
            let start = le_u32_at(p, 124);
            let end = (start + max_attempts) % 0x1_0000_0000;
            let (r, b) = solve_outcome(buffer, puzzle, threshold, max_attempts, hash);
            let n = le_u32_at(b, 124);
            &&& forall|other: Seq<u8>|
                #[trigger] solve_outcome(other, puzzle, threshold, max_attempts, hash) == (r, b)
            &&& r.len() > 0 ==> {
                &&& start <= n < end
                &&& b == with_nonce(p, n as u32)
                &&& forall|k: int|
                    start <= k < n ==> !(le_u32_at(#[trigger] hash(with_nonce(p, k as u32)), 0)
                        < threshold)
            }
            &&& (forall|x: Seq<u8>| #[trigger] hash(x).len() > 0) && r.len() == 0 ==> forall|k: int|
                start <= k < end ==> !(le_u32_at(#[trigger] hash(with_nonce(p, k as u32)), 0)
                    < threshold)
        }),
{
    let p = padded(puzzle);
    let start = le_u32_at(p, 124);
    let end = (start + max_attempts) % 0x1_0000_0000;
    lemma_search(p, threshold, start as int, end as int, hash);
}

/// What a solve call that found nothing leaves for a puzzle that fits:
/// the buffer holds the padded puzzle with the last nonce tried (or the
/// padded puzzle itself when nothing was tried), and no nonce in the
/// range gives a digest whose little-endian prefix is below the
/// threshold.
pub open spec fn exhausted(
    buffer_after: Seq<u8>,
    puzzle: Seq<u8>,
    threshold: u32,
    max_attempts: u32,
    hash: spec_fn(Seq<u8>) -> Seq<u8>,
) -> bool {
    let p = padded(puzzle);
    let start = le_u32_at(p, 124);
    let end = (start + max_attempts) % 0x1_0000_0000;
    &&& buffer_after == if start < end {
        with_nonce(p, (end - 1) as u32)
    } else {
        p
    }
    &&& forall|k: int|
        start <= k < end ==> !(le_u32_at(#[trigger] hash(with_nonce(p, k as u32)), 0) < threshold)
}

/// The blake2 crate's BLAKE2b-256, as a function on byte strings.
pub open spec fn crate_hash() -> spec_fn(Seq<u8>) -> Seq<u8> {
    |b: Seq<u8>| blake2b_256_digest(b)
}

/// BLAKE2b-256 of a single 128-byte block, as this library computes it.
pub open spec fn one_block_hash() -> spec_fn(Seq<u8>) -> Seq<u8> {
    |b: Seq<u8>| blake2b_256_one_block(b)
}

/// A puzzle of 1 to 128 bytes is padded to exactly 128 bytes: byte `i` is
/// the puzzle's byte `i` below its length and zero from there on.
pub proof fn lemma_padding(puzzle: Seq<u8>)
    requires
        0 < puzzle.len() <= 128,
    ensures
        padded(puzzle).len() == 128,
        forall|i: int| 0 <= i < puzzle.len() ==> #[trigger] padded(puzzle)[i] == puzzle[i],
        forall|i: int| puzzle.len() <= i < 128 ==> #[trigger] padded(puzzle)[i] == 0,
{
}

/// After a solve call on a puzzle of 1 to 128 bytes, the buffer holds the
/// whole puzzle in front of the nonce: byte `i` below 124 is the puzzle's
/// byte `i` where the puzzle has one and zero otherwise. A digest that
/// comes back is the hash of that buffer.
pub proof fn lemma_solve_keeps_puzzle(
    buffer: Seq<u8>,
    puzzle: Seq<u8>,
    threshold: u32,
    max_attempts: u32,
    hash: spec_fn(Seq<u8>) -> Seq<u8>,
)
    requires
        buffer.len() == 128,
        0 < puzzle.len() <= 128,
    ensures
        solve_outcome(buffer, puzzle, threshold, max_attempts, hash).1.len() == 128,
        forall|i: int|
            0 <= i < puzzle.len() && i < 124 ==> #[trigger] solve_outcome(
                buffer,
                puzzle,
                threshold,
                max_attempts,
                hash,
            ).1[i] == puzzle[i],
        forall|i: int|
            puzzle.len() <= i < 124 ==> #[trigger] solve_outcome(
                buffer,
                puzzle,
                threshold,
                max_attempts,
                hash,
            ).1[i] == 0,
{
    lemma_solution_is_checked(buffer, puzzle, threshold, max_attempts, hash);
    lemma_padding(puzzle);
    let b = solve_outcome(buffer, puzzle, threshold, max_attempts, hash).1;
    assert forall|i: int| 0 <= i < 124 implies #[trigger] b[i] == padded(puzzle)[i] by {
        assert(b.subrange(0, 124)[i] == padded(puzzle).subrange(0, 124)[i]);
    }
}

/// BLAKE2b-256 as RFC 7693 defines it, as a function on byte strings.
pub open spec fn rfc_hash() -> spec_fn(Seq<u8>) -> Seq<u8> {
    |b: Seq<u8>| blake2b_spec(b, 32)
}

proof fn lemma_search_same_block_hash(
    buf: Seq<u8>,
    threshold: u32,
    nonce: int,
    end: int,
    h1: spec_fn(Seq<u8>) -> Seq<u8>,
    h2: spec_fn(Seq<u8>) -> Seq<u8>,
)
    requires
        buf.len() == 128,
        forall|b: Seq<u8>| b.len() == 128 ==> #[trigger] h1(b) == h2(b),
    ensures
        search(buf, threshold, nonce, end, h1) == search(buf, threshold, nonce, end, h2),
    decreases end - nonce,
{
    if nonce < end {
        let b = with_nonce(buf, nonce as u32);
        lemma_with_nonce(buf, nonce as u32);
        assert(h1(b) == h2(b));
        lemma_search_same_block_hash(b, threshold, nonce + 1, end, h1, h2);
    }
}

/// A solve call reads its hash only on 128-byte buffers: two hashes that
/// agree on every 128-byte buffer give the same digest and leave the same
/// buffer. So the blake2 crate variant agrees with the other two exactly
/// when the crate's digest agrees with theirs on the buffers tried.
pub proof fn lemma_same_block_hash_same_outcome(
    buffer: Seq<u8>,
    puzzle: Seq<u8>,
    threshold: u32,
    max_attempts: u32,
    h1: spec_fn(Seq<u8>) -> Seq<u8>,
    h2: spec_fn(Seq<u8>) -> Seq<u8>,
)
    requires
        forall|b: Seq<u8>| b.len() == 128 ==> #[trigger] h1(b) == h2(b),
    ensures
        solve_outcome(buffer, puzzle, threshold, max_attempts, h1) == solve_outcome(
            buffer,
            puzzle,
            threshold,
            max_attempts,
            h2,
        ),
{
    if 0 < puzzle.len() <= 128 {
        let p = padded(puzzle);
        let start = le_u32_at(p, 124);
        let end = (start + max_attempts) % 0x1_0000_0000;
        lemma_search_same_block_hash(p, threshold, start as int, end as int, h1, h2);
    }
}

/// The optimized and SIMD solvers are solvers with RFC 7693 BLAKE2b-256:
/// their outcome is the search with that hash.
pub proof fn lemma_context_solvers_use_blake2b_256(
    buffer: Seq<u8>,
    puzzle: Seq<u8>,
    threshold: u32,
    max_attempts: u32,
)
    ensures
        solve_outcome(buffer, puzzle, threshold, max_attempts, one_block_hash()) == solve_outcome(
            buffer,
            puzzle,
            threshold,
            max_attempts,
            rfc_hash(),
        ),
{
    assert forall|b: Seq<u8>| b.len() == 128 implies #[trigger] one_block_hash()(b) == rfc_hash()(
        b,
    ) by {
        lemma_one_block_is_blake2b(b, 128, 32);
    }
    lemma_same_block_hash_same_outcome(
        buffer,
        puzzle,
        threshold,
        max_attempts,
        one_block_hash(),
        rfc_hash(),
    );
}

/// The library's one-block BLAKE2b-256 always gives 32 bytes.
pub proof fn lemma_one_block_hash_len()
    ensures
        forall|x: Seq<u8>| #[trigger] one_block_hash()(x).len() == 32,
{
}

/// Whether a digest meets the threshold: its first four bytes, read as a
/// little-endian `u32`, are below `threshold`.
pub fn hash_meets_threshold(hash: &[u8], threshold: u32) -> (r: bool)
    requires
        hash@.len() >= 4,
    ensures
        r == (le_u32_at(hash@, 0) < threshold),
{
    let value: u32 = (hash[0] as u32) + (hash[1] as u32) * 0x100 + (hash[2] as u32) * 0x1_0000
        + (hash[3] as u32) * 0x100_0000;
    value < threshold
}

/// Solver for Friendly Captcha proof-of-work puzzles: finds a nonce for
/// the last four bytes of a 128-byte buffer whose Blake2b-256 digest lies
/// below a threshold.
pub struct Solver {
    buffer: [u8; 128],
}

impl View for Solver {
    type V = Seq<u8>;

    closed spec fn view(&self) -> Seq<u8> {
        self.buffer@
    }
}

impl Solver {
    /// A solver whose buffer is all zeros.
    pub fn new() -> (s: Self)
        ensures
            s@ == Seq::new(128, |i: int| 0u8),
    {
        let s = Self { buffer: [0u8; 128] };
        assert(s@ =~= Seq::new(128, |i: int| 0u8));
        s
    }

    /// The buffer always holds 128 bytes.
    pub proof fn lemma_buffer_len(&self)
        ensures
            self@.len() == 128,
    {
    }

    /// The whole buffer, including the last nonce tried.
    pub fn get_solution(&self) -> (r: Vec<u8>)
        ensures
            r@ == self@,
    {
        let mut r: Vec<u8> = Vec::with_capacity(CHALLENGE_SIZE_BYTES);
        let mut i: usize = 0;
        while i < CHALLENGE_SIZE_BYTES
            invariant
                0 <= i <= 128,
                r@ == self@.subrange(0, i as int),
            decreases 128 - i,
        {
            r.push(self.buffer[i]);
            i += 1;
            assert(r@ =~= self@.subrange(0, i as int));
        }
        assert(r@ =~= self@);
        r
    }

    /// The last eight bytes of the buffer, which end with the nonce.
    pub fn get_solution_nonce(&self) -> (r: Vec<u8>)
        ensures
            r@ == self@.subrange(120, 128),
    {
        let mut r: Vec<u8> = Vec::with_capacity(8);
        let mut i: usize = 120;
        while i < CHALLENGE_SIZE_BYTES
            invariant
                120 <= i <= 128,
                r@ == self@.subrange(120, i as int),
            decreases 128 - i,
        {
            r.push(self.buffer[i]);
            i += 1;
            assert(r@ =~= self@.subrange(120, i as int));
        }
        r
    }

    /// Copies the puzzle into the buffer, pads it with zeros and returns
    /// the nonce held in its last four bytes.
    fn load_puzzle(&mut self, puzzle: &[u8]) -> (start: u32)
        requires
            0 < puzzle@.len() <= 128,
        ensures
            final(self)@ == padded(puzzle@),
            start == le_u32_at(padded(puzzle@), 124),
    {
        let len = puzzle.len();
        let mut i: usize = 0;
        while i < len
            invariant
                0 <= i <= len,
                len == puzzle@.len() <= 128,
                forall|j: int| 0 <= j < i ==> self.buffer[j] == puzzle@[j],
            decreases len - i,
        {
            self.buffer[i] = puzzle[i];
            i += 1;
        }
        while i < CHALLENGE_SIZE_BYTES
            invariant
                len <= i <= 128,
                len == puzzle@.len() <= 128,
                forall|j: int| 0 <= j < len ==> self.buffer[j] == puzzle@[j],
                forall|j: int| len <= j < i ==> self.buffer[j] == 0,
            decreases 128 - i,
        {
            self.buffer[i] = 0;
            i += 1;
        }
        assert(self@ =~= padded(puzzle@));
        (self.buffer[124] as u32) + (self.buffer[125] as u32) * 0x100 + (self.buffer[126] as u32)
            * 0x1_0000 + (self.buffer[127] as u32) * 0x100_0000
    }

    /// Writes the nonce, little-endian, into the last four bytes.
    fn set_nonce(&mut self, nonce: u32)
        ensures
            final(self)@ == with_nonce(old(self)@, nonce),
    {
        self.buffer[124] = (nonce % 0x100) as u8;
        self.buffer[125] = ((nonce / 0x100) % 0x100) as u8;
        self.buffer[126] = ((nonce / 0x1_0000) % 0x100) as u8;
        self.buffer[127] = ((nonce / 0x100_0000) % 0x100) as u8;
        reveal(with_nonce);
        assert(self@ =~= with_nonce(old(self)@, nonce));
    }

    /// Solves the puzzle with the blake2 crate's BLAKE2b-256.
    ///
    /// Only the last four bytes of the padded puzzle change. Returns the
    /// digest of the first solution found, or an empty vector when the
    /// puzzle is empty or too long or no nonce in range solves it.
    pub fn solve_blake2b(&mut self, puzzle: &[u8], threshold: u32, max_attempts: u32) -> (r: Vec<
        u8,
    >)
        ensures
            (r@, final(self)@) == solve_outcome(
                old(self)@,
                puzzle@,
                threshold,
                max_attempts,
                crate_hash(),
            ),
            r@.len() == 0 || r@.len() == 32,
            0 < puzzle@.len() <= 128 && r@.len() == 0 ==> exhausted(
                final(self)@,
                puzzle@,
                threshold,
                max_attempts,
                crate_hash(),
            ),
    {
        if puzzle.len() == 0 || puzzle.len() > CHALLENGE_SIZE_BYTES {
            return Vec::new();
        }
        let start = self.load_puzzle(puzzle);
        let ghost p = self@;
        let end = start.wrapping_add(max_attempts);
        let mut nonce = start;
        while nonce < end
            invariant
                start <= nonce,
                nonce <= end || nonce == start,
                end == (start + max_attempts) % 0x1_0000_0000,
                p == padded(puzzle@),
                p.len() == 128,
                start == le_u32_at(p, 124),
                self@ == if nonce == start {
                    p
                } else {
                    with_nonce(p, (nonce - 1) as u32)
                },
                forall|k: int|
                    start <= k < nonce ==> !(le_u32_at(#[trigger] crate_hash()(with_nonce(p, k as u32)), 0)
                        < threshold),
                solve_outcome(old(self)@, puzzle@, threshold, max_attempts, crate_hash()) == search(
                    self@,
                    threshold,
                    nonce as int,
                    end as int,
                    crate_hash(),
                ),
            decreases end - nonce,
        {
            proof {
                lemma_with_nonce_twice(p, (nonce - 1) as u32, nonce);
            }
            self.set_nonce(nonce);
            assert(self@ == with_nonce(p, nonce));
            let hash = blake2b_256(self.buffer.as_slice());
            if hash_meets_threshold(hash.as_slice(), threshold) {
                return hash;
            }
            nonce += 1;
        }
        Vec::new()
    }

    /// Solves the puzzle with this library's Blake2b context, reusing it
    /// across attempts: only its state is reset between nonces.
    fn solve_with_context(&mut self, puzzle: &[u8], threshold: u32, max_attempts: u32) -> (r: Vec<
        u8,
    >)
        ensures
            (r@, final(self)@) == solve_outcome(
                old(self)@,
                puzzle@,
                threshold,
                max_attempts,
                one_block_hash(),
            ),
            r@.len() == 0 || r@.len() == 32,
            0 < puzzle@.len() <= 128 && r@.len() == 0 ==> exhausted(
                final(self)@,
                puzzle@,
                threshold,
                max_attempts,
                one_block_hash(),
            ),
    {
        if puzzle.len() == 0 || puzzle.len() > CHALLENGE_SIZE_BYTES {
            return Vec::new();
        }
        let start = self.load_puzzle(puzzle);
        let ghost p = self@;
        let mut ctx = Blake2bSimdContext::new(32);
        ctx.t = CHALLENGE_SIZE_BYTES as u64;
        let end = start.wrapping_add(max_attempts);
        let mut nonce = start;
        while nonce < end
            invariant
                start <= nonce,
                nonce <= end || nonce == start,
                end == (start + max_attempts) % 0x1_0000_0000,
                p == padded(puzzle@),
                p.len() == 128,
                start == le_u32_at(p, 124),
                self@ == if nonce == start {
                    p
                } else {
                    with_nonce(p, (nonce - 1) as u32)
                },
                forall|k: int|
                    start <= k < nonce ==> !(le_u32_at(#[trigger] one_block_hash()(with_nonce(p, k as u32)), 0)
                        < threshold),
                ctx.t == 128,
                ctx.outlen == 32,
                solve_outcome(old(self)@, puzzle@, threshold, max_attempts, one_block_hash()) == search(
                    self@,
                    threshold,
                    nonce as int,
                    end as int,
                    one_block_hash(),
                ),
            decreases end - nonce,
        {
            proof {
                lemma_with_nonce_twice(p, (nonce - 1) as u32, nonce);
            }
            self.set_nonce(nonce);
            assert(self@ == with_nonce(p, nonce));
            ctx.reset_for_short_message();
            ctx.compress(self.buffer.as_slice(), true);
            let hash_value = ctx.hash_value_u32();
            proof {
                lemma_hash_value_is_digest_prefix(ctx.h@, 32);
            }
            if hash_value < threshold {
                return ctx.finalize();
            }
            nonce += 1;
        }
        Vec::new()
    }

    /// Solves the puzzle with the Blake2b context, resetting only its state
    /// between attempts.
    pub fn solve_blake2b_optimized(&mut self, puzzle: &[u8], threshold: u32, max_attempts: u32) -> (r:
        Vec<u8>)
        ensures
            (r@, final(self)@) == solve_outcome(
                old(self)@,
                puzzle@,
                threshold,
                max_attempts,
                one_block_hash(),
            ),
            r@.len() == 0 || r@.len() == 32,
            0 < puzzle@.len() <= 128 && r@.len() == 0 ==> exhausted(
                final(self)@,
                puzzle@,
                threshold,
                max_attempts,
                one_block_hash(),
            ),
    {
        self.solve_with_context(puzzle, threshold, max_attempts)
    }

    /// Solves the puzzle with the Blake2b context of the SIMD variant.
    pub fn solve_blake2b_simd(&mut self, puzzle: &[u8], threshold: u32, max_attempts: u32) -> (r: Vec<
        u8,
    >)
        ensures
            (r@, final(self)@) == solve_outcome(
                old(self)@,
                puzzle@,
                threshold,
                max_attempts,
                one_block_hash(),
            ),
            r@.len() == 0 || r@.len() == 32,
            0 < puzzle@.len() <= 128 && r@.len() == 0 ==> exhausted(
                final(self)@,
                puzzle@,
                threshold,
                max_attempts,
                one_block_hash(),
            ),
    {
        self.solve_with_context(puzzle, threshold, max_attempts)
    }
}

} // verus!
