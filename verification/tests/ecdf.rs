use rand::SeedableRng;
use workload::ecdf::{Ecdf, EcdfError, PCT_FULL};

#[test]
fn from_ecdf_accepts_valid_curve() {
    let e = Ecdf::from_ecdf(vec![(10, 500_000), (20, PCT_FULL)]).unwrap();
    assert_eq!(e.points, vec![(10, 500_000), (20, PCT_FULL)]);
}

#[test]
fn from_ecdf_rejects_empty() {
    assert_eq!(Ecdf::from_ecdf(vec![]).unwrap_err(), EcdfError::InvalidEcdf);
}

#[test]
fn from_ecdf_rejects_final_percentile_off() {
    let r = Ecdf::from_ecdf(vec![(10, 500_000), (20, PCT_FULL - 1)]);
    assert_eq!(r.unwrap_err(), EcdfError::InvalidEcdf);
}

#[test]
fn from_ecdf_rejects_non_increasing_values() {
    let r = Ecdf::from_ecdf(vec![(10, 500_000), (10, PCT_FULL)]);
    assert_eq!(r.unwrap_err(), EcdfError::InvalidEcdf);
    let r = Ecdf::from_ecdf(vec![(10, 500_000), (9, PCT_FULL)]);
    assert_eq!(r.unwrap_err(), EcdfError::InvalidEcdf);
}

#[test]
fn from_ecdf_rejects_non_increasing_percentiles() {
    let r = Ecdf::from_ecdf(vec![(10, 500_000), (20, 500_000), (30, PCT_FULL)]);
    assert_eq!(r.unwrap_err(), EcdfError::InvalidEcdf);
}

#[test]
fn from_values_rejects_empty() {
    assert_eq!(Ecdf::from_values(&vec![]).unwrap_err(), EcdfError::NoValues);
}

#[test]
fn from_values_assigns_rank_percentiles() {
    let e = Ecdf::from_values(&vec![4, 1, 3, 2]).unwrap();
    assert_eq!(
        e.points,
        vec![(1, 250_000), (2, 500_000), (3, 750_000), (4, PCT_FULL)]
    );
}

#[test]
fn from_values_collapses_duplicates_keeping_last_rank() {
    // Two samples of value 5: the later rank (2 of 3) wins.
    let e = Ecdf::from_values(&vec![9, 5, 5]).unwrap();
    assert_eq!(e.points, vec![(5, 666_666), (9, PCT_FULL)]);
}

#[test]
fn mean_of_two_point_curve_is_exact() {
    // Trapezoid over the upper half: (0 + 100) / 2 * 50% = 25.
    let e = Ecdf::from_ecdf(vec![(0, 500_000), (100, PCT_FULL)]).unwrap();
    assert_eq!(e.mean(), 25);
}

#[test]
fn mean_of_single_point_curve_is_zero() {
    let e = Ecdf::from_ecdf(vec![(42, PCT_FULL)]).unwrap();
    assert_eq!(e.mean(), 0);
}

#[test]
fn mean_converges_to_analytic_mean() {
    // Uniform samples 1..=1000 have mean 500.5; the integer trapezoid
    // lands within one unit of it.
    let values: Vec<u64> = (1..=1000).collect();
    let e = Ecdf::from_values(&values).unwrap();
    let m = e.mean();
    assert!((499..=501).contains(&m), "mean was {m}");
}

#[test]
fn sample_at_interpolates_linearly() {
    let e = Ecdf::from_ecdf(vec![(10, 500_000), (20, PCT_FULL)]).unwrap();
    assert_eq!(e.sample_at(0), 10);
    assert_eq!(e.sample_at(500_000), 10);
    assert_eq!(e.sample_at(750_000), 15);
    assert_eq!(e.sample_at(PCT_FULL), 20);
}

#[test]
fn sample_stays_within_curve_range() {
    let e = Ecdf::from_ecdf(vec![(10, 250_000), (17, 600_000), (20, PCT_FULL)]).unwrap();
    for seed in 0..20u64 {
        let mut rng = rand::rngs::StdRng::seed_from_u64(seed);
        for _ in 0..200 {
            let v = e.sample(&mut rng);
            assert!((10..=20).contains(&v), "sample {v} out of range");
        }
    }
}
