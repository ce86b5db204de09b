use blake2::digest::consts::U32;
use blake2::{Blake2b, Digest};
use friendly_pow_rs::Blake2bSimdContext;

fn hex(bytes: &[u8]) -> String {
    bytes.iter().map(|b| format!("{:02x}", b)).collect()
}

fn one_block_digest(data: &[u8; 128], outlen: usize, t: u64) -> Vec<u8> {
    let mut ctx = Blake2bSimdContext::new(outlen);
    ctx.t = t;
    ctx.compress(data, true);
    ctx.finalize()
}

#[test]
fn test_blake2b_simd_reset() {
    let mut ctx = Blake2bSimdContext::new(32);
    ctx.t = 128;

    let buffer = [0x42u8; 128];
    ctx.compress(&buffer, true);
    let hash1 = ctx.finalize();

    // Reset and hash again
    ctx.reset_for_short_message();
    ctx.compress(&buffer, true);
    let hash2 = ctx.finalize();

    assert_eq!(hash1, hash2, "Reset should produce same hash for same input");
}

#[test]
fn test_simd_hash_value_u32() {
    let mut ctx = Blake2bSimdContext::new(32);
    ctx.t = 128;

    let buffer = [0u8; 128];
    ctx.compress(&buffer, true);

    let val = ctx.hash_value_u32();
    let hash = ctx.finalize();

    let expected = u32::from_le_bytes([hash[0], hash[1], hash[2], hash[3]]);
    assert_eq!(val, expected);
}

#[test]
fn test_custom_blake2b_vs_standard() {
    let data = [0x42u8; 128];

    let standard_hash = Blake2b::<U32>::new().chain_update(&data).finalize();

    let mut ctx = Blake2bSimdContext::new(32);
    ctx.t = 128;
    ctx.compress(&data, true);
    let custom_hash = ctx.finalize();

    assert_eq!(
        standard_hash.as_slice(),
        custom_hash.as_slice(),
        "Custom Blake2b should match standard implementation"
    );
}

#[test]
fn test_simd_blake2b_vs_standard() {
    let data = [0x42u8; 128];

    let standard_hash = Blake2b::<U32>::new().chain_update(&data).finalize();

    let mut ctx_simd = Blake2bSimdContext::new(32);
    ctx_simd.t = 128;
    ctx_simd.compress(&data, true);
    let simd_hash = ctx_simd.finalize();

    assert_eq!(
        standard_hash.as_slice(),
        simd_hash.as_slice(),
        "SIMD Blake2b should match the blake2 crate"
    );
}

#[test]
fn blake2b_256_of_0x42_block_known_value() {
    let digest = one_block_digest(&[0x42u8; 128], 32, 128);
    assert_eq!(
        hex(&digest),
        "423849f570a67e6b5d344aa40d4007faae8e58141877e5e7dde965ec7857cbc9"
    );
}

#[test]
fn blake2b_512_of_abc_matches_rfc_vector() {
    let mut block = [0u8; 128];
    block[0] = b'a';
    block[1] = b'b';
    block[2] = b'c';
    let digest = one_block_digest(&block, 64, 3);
    assert_eq!(
        hex(&digest),
        "ba80a53f981c4d0d6a2797b69f12f6e94c212f14685ac4b74b12bb6fdbffa2d1\
         7d87c5392aab792dc252d5de4533cc9518d38aa8dbf1925ab92386edd4009923"
    );
}

#[test]
fn blake2b_256_of_empty_message() {
    let digest = one_block_digest(&[0u8; 128], 32, 0);
    assert_eq!(
        hex(&digest),
        "0e5751c026e543b2e8ab2eb06099daa1d1e5df47778f7787faab45cdf12fe3a8"
    );
}

#[test]
fn new_mixes_output_length_into_first_word() {
    let ctx = Blake2bSimdContext::new(32);
    assert_eq!(ctx.h[0], 0x6a09e667f3bcc908u64 ^ 0x01010020);
    assert_eq!(ctx.h[1], 0xbb67ae8584caa73b);
    assert_eq!(ctx.h[7], 0x5be0cd19137e2179);
    assert_eq!(ctx.t, 0);
    assert_eq!(ctx.outlen, 32);
}

#[test]
fn reset_restores_fresh_state_and_keeps_counter() {
    let mut ctx = Blake2bSimdContext::new(20);
    ctx.t = 77;
    ctx.compress(&[9u8; 128], false);
    ctx.reset_for_short_message();
    let fresh = Blake2bSimdContext::new(20);
    assert_eq!(ctx.h, fresh.h);
    assert_eq!(ctx.t, 77);
    assert_eq!(ctx.outlen, 20);
}

#[test]
fn compress_depends_on_last_block_flag() {
    let mut a = Blake2bSimdContext::new(32);
    let mut b = Blake2bSimdContext::new(32);
    a.t = 128;
    b.t = 128;
    a.compress(&[1u8; 128], true);
    b.compress(&[1u8; 128], false);
    assert_ne!(a.h, b.h);
}

#[test]
fn finalize_partial_word_lengths() {
    let mut ctx = Blake2bSimdContext::new(13);
    ctx.h = [
        0x0807060504030201,
        0x100f0e0d0c0b0a09,
        0,
        0,
        0,
        0,
        0,
        0,
    ];
    assert_eq!(
        ctx.finalize(),
        vec![1u8, 2, 3, 4, 5, 6, 7, 8, 9, 10, 11, 12, 13]
    );
    ctx.outlen = 64;
    assert_eq!(ctx.finalize().len(), 64);
    ctx.outlen = 0;
    assert!(ctx.finalize().is_empty());
}

#[test]
fn hash_value_u32_is_low_half_of_first_word() {
    let mut ctx = Blake2bSimdContext::new(32);
    ctx.h[0] = 0xdead_beef_0123_4567;
    assert_eq!(ctx.hash_value_u32(), 0x0123_4567);
}
