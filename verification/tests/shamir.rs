use sharks::{
    get_evaluator, interpolate, random_polynomial, Evaluator, RandomSource, Share, Sharks,
    SharksError,
};

/// A small deterministic linear-congruential source, so that dealer runs
/// in tests are reproducible.
struct SeededRandom {
    state: u32,
}

impl SeededRandom {
    fn new(seed: u32) -> SeededRandom {
        SeededRandom { state: seed }
    }
}

impl RandomSource for SeededRandom {
    fn sample_nonzero(&mut self) -> u8 {
        self.state = self.state.wrapping_mul(1664525).wrapping_add(1013904223);
        ((self.state >> 16) % 255 + 1) as u8
    }
}

fn take_shares(e: &mut Evaluator, n: usize) -> Vec<Share> {
    let mut out: Vec<Share> = Vec::new();
    for _ in 0..n {
        match e.next_share() {
            Some(s) => out.push(s),
            None => break,
        }
    }
    out
}

#[test]
fn test_insufficient_shares_err() {
    let sharks = Sharks(255);
    let mut dealer = sharks.dealer(&[1]);
    let shares: Vec<Share> = take_shares(&mut dealer, 254);
    let secret = sharks.recover(&shares);
    assert!(secret.is_err());
}

#[test]
fn test_duplicate_shares_err() {
    let sharks = Sharks(255);
    let mut dealer = sharks.dealer(&[1]);
    let mut shares: Vec<Share> = take_shares(&mut dealer, 255);
    shares[1] = Share {
        x: shares[0].x,
        y: shares[0].y.clone(),
    };
    let secret = sharks.recover(&shares);
    assert!(secret.is_err());
}

#[test]
fn test_integration_works() {
    let sharks = Sharks(255);
    let mut dealer = sharks.dealer(&[1, 2, 3, 4]);
    let shares: Vec<Share> = take_shares(&mut dealer, 255);
    let secret = sharks.recover(&shares).unwrap();
    assert_eq!(secret, vec![1, 2, 3, 4]);
}

#[test]
fn random_polynomial_works() {
    let mut rng = SeededRandom::new(7);
    let poly = random_polynomial(1, 3, &mut rng);
    assert_eq!(poly.len(), 3);
    assert_eq!(poly[2], 1);
}

#[test]
fn evaluator_works() {
    let mut iter = get_evaluator(vec![vec![3, 2, 5]]);
    let mut values: Vec<(u8, Vec<u8>)> = Vec::new();
    for _ in 0..2 {
        let s = iter.next_share().unwrap();
        values.push((s.x, s.y));
    }
    assert_eq!(values, vec![(1, vec![4]), (2, vec![13])]);
}

#[test]
fn interpolate_works() {
    let mut rng = SeededRandom::new(11);
    let poly = random_polynomial(185, 10, &mut rng);
    let mut iter = get_evaluator(vec![poly]);
    let shares: Vec<Share> = take_shares(&mut iter, 10);
    let root = interpolate(&shares);
    assert_eq!(root, vec![185]);
}

#[test]
fn configuration_validation() {
    assert_eq!(Sharks::new(0).unwrap_err(), SharksError::ConfigurationError);
    let sharks = Sharks::new(3).unwrap();
    assert_eq!(sharks.0, 3);
    assert_eq!(Sharks::new(255).unwrap().0, 255);
}

#[test]
fn scenario_fixed_seed_three_of_four() {
    let sharks = Sharks(3);
    let mut rng = SeededRandom::new(0x90909090);
    let mut dealer = sharks.dealer_rng(&[1, 2, 3, 4], &mut rng);
    let shares: Vec<Share> = take_shares(&mut dealer, 3);
    assert_eq!(shares.len(), 3);
    assert_eq!(shares[0].x, 1);
    assert_eq!(shares[1].x, 2);
    assert_eq!(shares[2].x, 3);
    let secret = sharks.recover(&shares).unwrap();
    assert_eq!(secret, vec![1, 2, 3, 4]);
}

#[test]
fn scenario_max_threshold_one_share_short() {
    let sharks = Sharks(255);
    let mut rng = SeededRandom::new(42);
    let mut dealer = sharks.dealer_rng(&[9, 8, 7], &mut rng);
    let mut shares: Vec<Share> = take_shares(&mut dealer, 255);
    assert_eq!(shares.len(), 255);
    shares.remove(17);
    let secret = sharks.recover(&shares);
    assert_eq!(secret.unwrap_err(), SharksError::InsufficientShares);
}

#[test]
fn scenario_zero_length_secret() {
    let sharks = Sharks(1);
    let mut rng = SeededRandom::new(5);
    let mut dealer = sharks.dealer_rng(&[], &mut rng);
    let shares: Vec<Share> = take_shares(&mut dealer, 4);
    for s in &shares {
        assert!(s.y.is_empty());
    }
    let one = vec![Share {
        x: shares[2].x,
        y: shares[2].y.clone(),
    }];
    let secret = sharks.recover(&one).unwrap();
    assert_eq!(secret, Vec::<u8>::new());
}

#[test]
fn round_trip_many_subsets() {
    let sharks = Sharks(3);
    let mut rng = SeededRandom::new(123456);
    let secret_in: Vec<u8> = vec![0, 255, 17, 3, 99];
    let mut dealer = sharks.dealer_rng(&secret_in, &mut rng);
    let shares: Vec<Share> = take_shares(&mut dealer, 6);
    let subsets: [[usize; 3]; 5] = [[0, 1, 2], [3, 4, 5], [0, 2, 4], [1, 3, 5], [5, 2, 0]];
    for subset in subsets.iter() {
        let picked: Vec<Share> = subset
            .iter()
            .map(|&i| Share {
                x: shares[i].x,
                y: shares[i].y.clone(),
            })
            .collect();
        assert_eq!(sharks.recover(&picked).unwrap(), secret_in);
    }
    // More shares than the threshold interpolate to the secret as well.
    assert_eq!(sharks.recover(&shares).unwrap(), secret_in);
}

#[test]
fn round_trip_two_of_two() {
    let sharks = Sharks(2);
    let mut rng = SeededRandom::new(31337);
    let secret_in: Vec<u8> = vec![0xde, 0xad, 0xbe, 0xef];
    let mut dealer = sharks.dealer_rng(&secret_in, &mut rng);
    let shares: Vec<Share> = take_shares(&mut dealer, 2);
    assert_eq!(sharks.recover(&shares).unwrap(), secret_in);
}

#[test]
fn insufficiency_for_every_smaller_count() {
    for k in 1..=6u8 {
        let sharks = Sharks(k);
        let mut rng = SeededRandom::new(k as u32 + 1000);
        let mut dealer = sharks.dealer_rng(&[10, 20], &mut rng);
        let shares: Vec<Share> = take_shares(&mut dealer, k as usize);
        for m in 0..k as usize {
            let some: Vec<Share> = shares[..m]
                .iter()
                .map(|s| Share {
                    x: s.x,
                    y: s.y.clone(),
                })
                .collect();
            assert_eq!(
                sharks.recover(&some).unwrap_err(),
                SharksError::InsufficientShares
            );
        }
    }
}

#[test]
fn emitted_xs_are_unique_and_ascending() {
    let sharks = Sharks(2);
    let mut rng = SeededRandom::new(77);
    let mut dealer = sharks.dealer_rng(&[42], &mut rng);
    let shares: Vec<Share> = take_shares(&mut dealer, 300);
    assert_eq!(shares.len(), 255);
    for (i, s) in shares.iter().enumerate() {
        assert_eq!(s.x as usize, i + 1);
    }
    assert!(dealer.next_share().is_none());
}

#[test]
fn duplicate_x_rejected_even_with_enough_distinct() {
    let sharks = Sharks(2);
    let mut rng = SeededRandom::new(8);
    let mut dealer = sharks.dealer_rng(&[5, 6], &mut rng);
    let mut shares: Vec<Share> = take_shares(&mut dealer, 3);
    shares.push(Share {
        x: shares[0].x,
        y: vec![0, 0],
    });
    let secret = sharks.recover(&shares);
    assert_eq!(secret.unwrap_err(), SharksError::MalformedShares);
}

#[test]
fn mismatched_share_lengths_rejected() {
    let sharks = Sharks(2);
    let mut rng = SeededRandom::new(9);
    let mut dealer = sharks.dealer_rng(&[5, 6], &mut rng);
    let mut shares: Vec<Share> = take_shares(&mut dealer, 2);
    shares[1].y.pop();
    let secret = sharks.recover(&shares);
    assert_eq!(secret.unwrap_err(), SharksError::MalformedShares);
}

#[test]
fn thread_random_dealer_round_trips() {
    let sharks = Sharks(4);
    let mut dealer = sharks.dealer(&[1, 1, 2, 3, 5, 8]);
    let shares: Vec<Share> = take_shares(&mut dealer, 4);
    assert_eq!(sharks.recover(&shares).unwrap(), vec![1, 1, 2, 3, 5, 8]);
}

#[test]
fn sampled_coefficients_stay_nonzero() {
    let mut rng = SeededRandom::new(2024);
    let poly = random_polynomial(0, 255, &mut rng);
    assert_eq!(poly.len(), 255);
    for &c in &poly[..254] {
        assert!(c >= 1);
    }
    assert_eq!(poly[254], 0);
}
