use blake2::digest::consts::U32;
use blake2::{Blake2b, Digest};
use friendly_pow_rs::solver::hash_meets_threshold;
use friendly_pow_rs::Solver;

/// Threshold for a difficulty byte: floor(2^((255.999 - d) / 8)).
fn threshold_for(difficulty: u8) -> u32 {
    let exponent = (255.999 - f64::from(difficulty)) / 8.0;
    2_f64.powf(exponent).floor() as u32
}

fn hex(bytes: &[u8]) -> String {
    bytes.iter().map(|b| format!("{:02x}", b)).collect()
}

fn crate_digest(data: &[u8]) -> Vec<u8> {
    Blake2b::<U32>::new().chain_update(data).finalize().to_vec()
}

fn le_u32(bytes: &[u8]) -> u32 {
    u32::from_le_bytes([bytes[0], bytes[1], bytes[2], bytes[3]])
}

#[test]
fn test_optimized_vs_basic() {
    let mut solver = Solver::new();
    let puzzle = vec![1, 2, 3, 4, 5, 6, 7, 8];
    let threshold = threshold_for(50);

    let hash_basic = solver.solve_blake2b(&puzzle, threshold, 1_000_000);
    let hash_optimized = solver.solve_blake2b_optimized(&puzzle, threshold, 1_000_000);

    assert_eq!(hash_basic, hash_optimized, "Optimized should match basic");
}

#[test]
fn test_simd_vs_optimized() {
    let mut solver = Solver::new();
    let puzzle = vec![1, 2, 3, 4, 5, 6, 7, 8];
    let threshold = threshold_for(50);

    let hash_optimized = solver.solve_blake2b_optimized(&puzzle, threshold, 1_000_000);
    let hash_simd = solver.solve_blake2b_simd(&puzzle, threshold, 1_000_000);

    assert_eq!(hash_optimized, hash_simd, "SIMD should match optimized");
}

#[test]
fn test_solver_easy_puzzle() {
    let mut solver = Solver::new();

    let mut puzzle = vec![0u8; 128];
    puzzle[0] = 1;
    puzzle[1] = 2;
    puzzle[2] = 3;

    let threshold = threshold_for(50);
    let hash = solver.solve_blake2b(&puzzle, threshold, 1_000_000);

    assert!(!hash.is_empty(), "Should find a solution for easy puzzle");
    assert_eq!(hash.len(), 32, "Hash should be 32 bytes");
}

#[test]
fn test_solver_no_solution() {
    let mut solver = Solver::new();

    let puzzle = vec![0u8; 128];

    let hash = solver.solve_blake2b(&puzzle, 1, 100);

    assert!(hash.is_empty(), "Should return empty when no solution found");
}

#[test]
fn test_solution_nonce() {
    let mut solver = Solver::new();

    let puzzle = vec![0u8; 128];
    let threshold = threshold_for(50);

    solver.solve_blake2b(&puzzle, threshold, 1_000_000);

    let solution = solver.get_solution();
    assert_eq!(solution.len(), 128);

    let nonce = solver.get_solution_nonce();
    assert_eq!(nonce.len(), 8);
}

#[test]
fn solve_finds_known_first_solution() {
    let mut puzzle = vec![0u8; 128];
    puzzle[0] = 1;
    puzzle[1] = 2;
    puzzle[2] = 3;
    let threshold = threshold_for(50);
    assert_eq!(threshold, 56_426_713);
    for variant in 0..3 {
        let mut solver = Solver::new();
        let hash = match variant {
            0 => solver.solve_blake2b(&puzzle, threshold, 1_000_000),
            1 => solver.solve_blake2b_optimized(&puzzle, threshold, 1_000_000),
            _ => solver.solve_blake2b_simd(&puzzle, threshold, 1_000_000),
        };
        assert_eq!(
            hex(&hash),
            "f25cb7018e4da433e2eb2eb62663c8fa8b867fec60d480974c485f1e18515d8b"
        );
        assert_eq!(solver.get_solution_nonce(), vec![0, 0, 0, 0, 25, 0, 0, 0]);
    }
}

#[test]
fn solution_is_hash_of_kept_buffer_and_first_below_threshold() {
    let puzzle = vec![1u8, 2, 3, 4, 5, 6, 7, 8];
    let threshold = threshold_for(50);
    let mut solver = Solver::new();
    let hash = solver.solve_blake2b_simd(&puzzle, threshold, 1_000_000);
    let buffer = solver.get_solution();
    assert_eq!(hash, crate_digest(&buffer));
    assert!(le_u32(&hash) < threshold);
    assert_eq!(&buffer[..8], &puzzle[..]);
    assert!(buffer[8..124].iter().all(|b| *b == 0));
    let found = le_u32(&buffer[124..128]);
    assert_eq!(found, 74);
    for k in 0..found {
        let mut b = buffer.clone();
        b[124..128].copy_from_slice(&k.to_le_bytes());
        assert!(le_u32(&crate_digest(&b)) >= threshold);
    }
}

#[test]
fn invalid_puzzles_return_empty_and_keep_buffer() {
    let mut solver = Solver::new();
    let first = solver.solve_blake2b(&[7u8; 16], threshold_for(50), 1_000_000);
    assert!(!first.is_empty());
    let before = solver.get_solution();
    assert!(solver.solve_blake2b(&[], 100, 10).is_empty());
    assert!(solver.solve_blake2b_optimized(&[1u8; 129], 100, 10).is_empty());
    assert!(solver.solve_blake2b_simd(&[], u32::MAX, 10).is_empty());
    assert_eq!(solver.get_solution(), before);
}

#[test]
fn zero_attempts_leaves_padded_puzzle() {
    let mut solver = Solver::new();
    let hash = solver.solve_blake2b(&[5u8, 6, 7], u32::MAX, 0);
    assert!(hash.is_empty());
    let mut expected = vec![0u8; 128];
    expected[0] = 5;
    expected[1] = 6;
    expected[2] = 7;
    assert_eq!(solver.get_solution(), expected);
}

#[test]
fn wrapping_end_tries_nothing() {
    let mut puzzle = vec![0u8; 128];
    puzzle[124] = 0xfe;
    puzzle[125] = 0xff;
    puzzle[126] = 0xff;
    puzzle[127] = 0xff;
    let mut solver = Solver::new();
    assert!(solver.solve_blake2b_simd(&puzzle, u32::MAX, 10).is_empty());
    assert_eq!(solver.get_solution(), puzzle);
}

#[test]
fn exhausted_range_keeps_last_nonce_tried() {
    let mut solver = Solver::new();
    assert!(solver.solve_blake2b_optimized(&[0u8; 128], 1, 100).is_empty());
    assert_eq!(solver.get_solution_nonce(), vec![0, 0, 0, 0, 99, 0, 0, 0]);
}

#[test]
fn new_solver_buffer_is_zero() {
    let solver = Solver::new();
    assert_eq!(solver.get_solution(), vec![0u8; 128]);
    assert_eq!(solver.get_solution_nonce(), vec![0u8; 8]);
}

#[test]
fn hash_meets_threshold_reads_little_endian_prefix() {
    let hash = [0x10u8, 0x00, 0x00, 0x01, 0xff];
    assert!(hash_meets_threshold(&hash, 0x0100_0011));
    assert!(!hash_meets_threshold(&hash, 0x0100_0010));
    assert!(!hash_meets_threshold(&hash, 0));
}

#[test]
fn basic_solver_digest_is_not_its_input() {
    let mut solver = Solver::new();
    let hash = solver.solve_blake2b(&[9u8; 40], u32::MAX, 1);
    assert_eq!(hash.len(), 32);
    assert_eq!(hash, crate_digest(&solver.get_solution()));
    assert_ne!(hash, solver.get_solution()[..32].to_vec());
}

#[test]
fn basic_exhausted_range_keeps_last_nonce_tried() {
    let mut solver = Solver::new();
    let mut puzzle = vec![3u8; 40];
    puzzle.resize(128, 0);
    puzzle[124] = 10;
    assert!(solver.solve_blake2b(&puzzle, 1, 5).is_empty());
    let buffer = solver.get_solution();
    assert_eq!(&buffer[..124], &puzzle[..124]);
    assert_eq!(solver.get_solution_nonce(), vec![0, 0, 0, 0, 14, 0, 0, 0]);
    for k in 10u32..15 {
        let mut b = puzzle.clone();
        b[124..128].copy_from_slice(&k.to_le_bytes());
        assert!(le_u32(&crate_digest(&b)) >= 1);
    }
}
