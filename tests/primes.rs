use prime_finder::collect::{collect, encode};
use prime_finder::partition::{Block, WorkPartitioner};
use prime_finder::pipeline::find_primes;
use prime_finder::primality::floor_sqrt;
use prime_finder::sieve::{find_prime_vec, is_prime, SeedPrimeSet};
use prime_finder::worker::check_block;

fn reference_primes(m: u32) -> Vec<u32> {
    let mut out = Vec::new();
    let mut n: u32 = 3;
    while n <= m {
        let mut prime = true;
        let mut d: u32 = 2;
        while d < n {
            if n % d == 0 {
                prime = false;
                break;
            }
            d += 1;
        }
        if prime {
            out.push(n);
        }
        n += 1;
    }
    out
}

fn all_blocks(max: u32) -> (u32, Vec<Block>) {
    let mut parts = WorkPartitioner::new(max);
    let l = parts.limit();
    let mut blocks = Vec::new();
    while let Some(b) = parts.next_block() {
        blocks.push(b);
    }
    (l, blocks)
}

const HUNDRED: [u32; 24] = [
    3, 5, 7, 11, 13, 17, 19, 23, 29, 31, 37, 41, 43, 47, 53, 59, 61, 67, 71, 73, 79, 83, 89, 97,
];

#[test]
fn bound_hundred_scenario() {
    assert_eq!(find_prime_vec(10), vec![3, 5, 7]);
    assert_eq!(SeedPrimeSet::new(10).primes().clone(), vec![3, 5, 7]);
    let result = find_primes(100);
    assert_eq!(result, HUNDRED.to_vec());
    let bytes = encode(&result);
    assert_eq!(bytes.len(), 96);
    let mut expected = Vec::new();
    for p in HUNDRED.iter() {
        expected.extend_from_slice(&p.to_be_bytes());
    }
    assert_eq!(bytes, expected);
}

#[test]
fn bound_nine_scenario() {
    assert_eq!(find_prime_vec(3), vec![3]);
    assert_eq!(floor_sqrt(9), 3);
    let result = find_primes(9);
    assert_eq!(result, vec![3, 5, 7]);
    let bytes = encode(&result);
    assert_eq!(bytes.len(), 12);
    assert_eq!(bytes, vec![0, 0, 0, 3, 0, 0, 0, 5, 0, 0, 0, 7]);
}

#[test]
fn result_matches_reference_for_small_bounds() {
    for m in 0..=400u32 {
        assert_eq!(find_primes(m), reference_primes(m), "bound {}", m);
    }
    assert_eq!(find_primes(5000), reference_primes(5000));
}

#[test]
fn result_strictly_ascending_and_counted() {
    for m in [0u32, 1, 2, 3, 4, 25, 97, 1000, 7919] {
        let r = find_primes(m);
        assert!(r.windows(2).all(|w| w[0] < w[1]));
        assert_eq!(r.len(), reference_primes(m).len());
    }
    assert_eq!(find_primes(1000).len(), 167);
}

#[test]
fn seeds_equal_small_part_of_result() {
    for m in [9u32, 10, 49, 100, 120, 1000, 10007] {
        let l = floor_sqrt(m);
        let seeds = find_prime_vec(l);
        let small: Vec<u32> = find_primes(m).into_iter().filter(|&p| p <= l).collect();
        assert_eq!(seeds, small, "bound {}", m);
    }
}

#[test]
fn partition_covers_odd_candidates_once() {
    for m in 0..=300u32 {
        let (l, blocks) = all_blocks(m);
        assert_eq!(l, floor_sqrt(m));
        let mut seen = vec![0u32; m as usize + 3];
        for b in blocks.iter() {
            let mut c = b.low as u64;
            while c <= b.hi as u64 {
                assert!(c % 2 == 1);
                seen[c as usize] += 1;
                c += 2;
            }
        }
        for c in 0..=m {
            let expected = if c % 2 == 1 && c >= 3 && c > l { 1 } else { 0 };
            assert_eq!(seen[c as usize], expected, "bound {} value {}", m, c);
        }
    }
}

#[test]
fn partition_at_full_range() {
    let (l, blocks) = all_blocks(u32::MAX);
    assert_eq!(l, 65535);
    assert_eq!(blocks.len(), 65536);
    assert_eq!(blocks[0], Block { low: 65537, hi: 131070 });
    assert_eq!(blocks[blocks.len() - 1].hi, u32::MAX);
    for w in blocks.windows(2) {
        assert!(w[0].hi < w[1].low);
        assert!(w[1].low - w[0].hi <= 2);
    }
}

#[test]
fn boundary_candidate_in_one_block() {
    let (l, blocks) = all_blocks(81);
    assert_eq!(l, 9);
    let holders: Vec<&Block> = blocks.iter().filter(|b| b.low <= 27 && 27 <= b.hi).collect();
    assert_eq!(holders.len(), 1);
    assert_eq!(*holders[0], Block { low: 19, hi: 27 });
    assert_eq!(blocks[2], Block { low: 29, hi: 36 });
}

#[test]
fn collect_ignores_arrival_order() {
    let forward = collect(HUNDRED.to_vec());
    let mut reversed = HUNDRED.to_vec();
    reversed.reverse();
    let mut rotated = HUNDRED.to_vec();
    rotated.rotate_left(7);
    assert_eq!(collect(reversed), forward);
    assert_eq!(collect(rotated), forward);
    assert_eq!(forward, HUNDRED.to_vec());
    assert_eq!(collect(vec![11, 3, 7, 5]), vec![3, 5, 7, 11]);
}

#[test]
fn repeated_runs_give_same_bytes() {
    assert_eq!(encode(&find_primes(2000)), encode(&find_primes(2000)));
}

#[test]
fn encode_is_big_endian() {
    assert_eq!(encode(&vec![0x0102_0304, u32::MAX]), vec![1, 2, 3, 4, 255, 255, 255, 255]);
    assert_eq!(encode(&vec![]), Vec::<u8>::new());
}

#[test]
fn floor_sqrt_values() {
    let cases = [(0u32, 0u32), (1, 1), (2, 1), (3, 1), (4, 2), (8, 2), (9, 3), (99, 9), (100, 10)];
    for (n, r) in cases {
        assert_eq!(floor_sqrt(n), r);
    }
    assert_eq!(floor_sqrt(u32::MAX), 65535);
}

#[test]
fn trial_division_against_seeds() {
    let seeds = find_prime_vec(10);
    assert!(is_prime(97, &seeds));
    assert!(!is_prime(91, &seeds));
    assert!(!is_prime(49, &seeds));
    assert!(is_prime(3, &seeds));
    assert!(!is_prime(9, &vec![3]));
}

#[test]
fn check_block_finds_block_primes() {
    let seeds = SeedPrimeSet::new(10);
    assert_eq!(check_block(&Block { low: 11, hi: 20 }, &seeds), vec![11, 13, 17, 19]);
    assert_eq!(check_block(&Block { low: 91, hi: 100 }, &seeds), vec![97]);
    assert_eq!(check_block(&Block { low: 3, hi: 2 }, &seeds), Vec::<u32>::new());
    let full = SeedPrimeSet::new(65535);
    assert_eq!(full.limit(), 65535);
    assert_eq!(
        check_block(&Block { low: 4294967231, hi: u32::MAX }, &full),
        vec![4294967231, 4294967279, 4294967291]
    );
}

#[test]
fn trial_division_outside_coverage() {
    assert!(is_prime(25, &vec![3]));
    assert!(is_prime(4, &vec![3, 5, 7]));
    assert!(is_prime(1, &vec![3]));
    assert!(!is_prime(49, &vec![4, 7]));
    assert!(is_prime(97, &vec![3, 5, 7, 11, 13]));
    assert!(!is_prime(91, &vec![3, 5, 7, 100]));
}

#[test]
fn check_block_with_short_seeds() {
    let seeds = SeedPrimeSet::new(3);
    assert_eq!(
        check_block(&Block { low: 3, hi: 30 }, &seeds),
        vec![3, 5, 7, 11, 13, 17, 19, 23, 25, 29]
    );
}
