use ferrox::rank::{rank_of, MEDIAN, NINETY, NINETY_NINE, NINETY_NINE_NINE, SCALE};

const QUANTILES: [(u64, f64); 4] = [
    (MEDIAN, 0.50),
    (NINETY, 0.90),
    (NINETY_NINE, 0.99),
    (NINETY_NINE_NINE, 0.999),
];

#[test]
fn quantiles_are_the_nearest_fractions() {
    for (quantile, value) in QUANTILES {
        assert_eq!(quantile as f64 / SCALE as f64, value);
    }
}

#[test]
fn ranks_are_those_of_the_floating_product() {
    let mut state = 1u64;
    for i in 0..200_000u64 {
        state = state
            .wrapping_mul(6364136223846793005)
            .wrapping_add(1442695040888963407);
        let n = state >> (i % 64);
        for (quantile, value) in QUANTILES {
            assert_eq!(rank_of(quantile, n), (value * n as f64).ceil() as u64);
        }
    }
    for n in [0, 1, 2, SCALE - 1, SCALE, SCALE + 1, SCALE + 3, u64::MAX - 1, u64::MAX] {
        for (quantile, value) in QUANTILES {
            assert_eq!(rank_of(quantile, n), (value * n as f64).ceil() as u64);
        }
    }
}

#[test]
fn small_counts_lose_nothing_to_rounding() {
    for n in (0..3000u64).chain((1u64 << 42) - 3000..=1u64 << 42) {
        assert_eq!(rank_of(MEDIAN, n), (n + 1) / 2);
        assert_eq!(rank_of(NINETY, n), (9 * n + 9) / 10);
        assert_eq!(rank_of(NINETY_NINE, n), (99 * n + 99) / 100);
        assert_eq!(rank_of(NINETY_NINE_NINE, n), (999 * n + 999) / 1000);
    }
}

#[test]
fn large_counts_are_rounded() {
    assert_eq!(rank_of(NINETY_NINE_NINE, 35_184_372_088_999), 35_149_187_716_910);
    assert_eq!(rank_of(MEDIAN, u64::MAX), 1 << 63);
}

#[test]
fn higher_quantiles_have_higher_ranks() {
    for n in [0u64, 1, 9, 10, 11, 1000, 1 << 60, u64::MAX] {
        assert!(rank_of(MEDIAN, n) <= rank_of(NINETY, n));
        assert!(rank_of(NINETY, n) <= rank_of(NINETY_NINE, n));
        assert!(rank_of(NINETY_NINE, n) <= rank_of(NINETY_NINE_NINE, n));
        assert!(rank_of(NINETY_NINE_NINE, n) <= n);
    }
}
