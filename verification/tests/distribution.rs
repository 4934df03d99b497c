use lot_simulator::probability::{Probability, Ratio};
use lot_simulator::random_generator::{draw_from_word, event_occurred, RandomSource, DRAW_RANGE};
use lot_simulator::roots::{rounded_cube_root, rounded_root_ties_down, rounded_root_ties_up};
use lot_simulator::triangular_distribution::{
    skew_draw, DistributionError, TriangularPdf, TriangularPdfSampler,
};

fn value(p: &Probability) -> f64 {
    p.numerator() as f64 / p.denominator() as f64
}

#[test]
fn pdf_default_parameters() {
    let pdf = TriangularPdf::new(0, 14400, 28800).unwrap();
    let peak = pdf.pdf(14400);
    assert_eq!((peak.numerator(), peak.denominator()), (2, 28800));
    assert!((value(&peak) - 0.0000694).abs() < 1e-7);
    assert_eq!(pdf.pdf(0).numerator(), 0);
    assert_eq!(pdf.pdf(28800).numerator(), 0);
    assert_eq!(value(&pdf.pdf(0)), 0.0);
    assert_eq!(value(&pdf.pdf(28800)), 0.0);
}

#[test]
fn pdf_is_zero_outside_the_support() {
    let pdf = TriangularPdf::new(10, 15, 30).unwrap();
    for x in [0, 9, 10, 30, 31, 1000, u32::MAX] {
        assert_eq!(pdf.pdf(x).numerator(), 0, "at {x}");
    }
    for x in 11..30 {
        assert!(pdf.pdf(x).numerator() > 0, "at {x}");
    }
}

#[test]
fn pdf_edges() {
    let pdf = TriangularPdf::new(10, 15, 30).unwrap();
    let rising = pdf.pdf(12);
    assert_eq!((rising.numerator(), rising.denominator()), (4, 100));
    let peak = pdf.pdf(15);
    assert_eq!((peak.numerator(), peak.denominator()), (2, 20));
    let falling = pdf.pdf(20);
    assert_eq!((falling.numerator(), falling.denominator()), (20, 300));
    let outside = pdf.pdf(31);
    assert_eq!((outside.numerator(), outside.denominator()), (0, 1));
}

#[test]
fn pdf_is_continuous_at_the_mode() {
    let pdf = TriangularPdf::new(10, 15, 30).unwrap();
    let peak = value(&pdf.pdf(15));
    assert!((peak - 2.0 / 20.0).abs() < 1e-12);
    let before = value(&pdf.pdf(14));
    let after = value(&pdf.pdf(16));
    assert!(before < peak && after < peak);
    // The edges' formulas at the mode: 2 (c - a) / ((b - a) (c - a)) and
    // 2 (b - c) / ((b - a) (b - c)).
    assert!((2.0 * 5.0 / (20.0 * 5.0) - peak).abs() < 1e-12);
    assert!((2.0 * 15.0 / (20.0 * 15.0) - peak).abs() < 1e-12);
}

#[test]
fn pdf_sums_to_about_one() {
    let pdf = TriangularPdf::new(0, 50, 100).unwrap();
    let total: f64 = (0..=100).map(|x| value(&pdf.pdf(x))).sum();
    assert!((total - 1.0).abs() < 1e-9, "{total}");
}

#[test]
fn malformed_parameters_are_refused() {
    for (a, c, b) in [(0, 0, 10), (0, 10, 10), (5, 5, 5), (3, 2, 10), (0, 11, 10), (10, 5, 0)] {
        assert_eq!(
            TriangularPdf::new(a, c, b).err(),
            Some(DistributionError::MalformedParameters)
        );
        assert_eq!(
            TriangularPdfSampler::new(a, c, b, false).err(),
            Some(DistributionError::MalformedParameters)
        );
    }
    assert!(TriangularPdf::new(0, 1, 2).is_ok());
    assert!(TriangularPdfSampler::new(0, 1, 2, true).is_ok());
}

#[test]
fn sampler_at_the_mode_fraction_returns_the_mode() {
    let sampler = TriangularPdfSampler::new(0, 5, 10, false).unwrap();
    assert_eq!(sampler.sample_from_draw(DRAW_RANGE / 2), 5);
    let sampler = TriangularPdfSampler::new(0, 14400, 28800, false).unwrap();
    assert_eq!(sampler.sample_from_draw(DRAW_RANGE / 2), 14400);
    let sampler = TriangularPdfSampler::new(100, 200, 500, false).unwrap();
    assert_eq!(sampler.sample_from_draw(DRAW_RANGE / 4), 200);
}

#[test]
fn sampler_quantiles() {
    let sampler = TriangularPdfSampler::new(0, 5, 10, false).unwrap();
    assert_eq!(sampler.sample_from_draw(0), 0);
    assert_eq!(sampler.sample_from_draw(DRAW_RANGE - 1), 10);
    // sqrt(0.125 * 50) = 2.5, rounded up.
    assert_eq!(sampler.sample_from_draw(DRAW_RANGE / 8), 3);
    // 10 - sqrt(0.125 * 50) = 7.5, rounded up.
    assert_eq!(sampler.sample_from_draw(DRAW_RANGE / 8 * 7), 8);
    // sqrt(0.32 * 50) = 4.
    assert_eq!(sampler.quantile(5368709), 4);
    // 10 - sqrt(0.02 * 50) = 9.
    assert_eq!(sampler.quantile(16441672), 9);
}

#[test]
fn sampler_matches_the_closed_form() {
    let sampler = TriangularPdfSampler::new(0, 14400, 28800, false).unwrap();
    let mut rng = RandomSource::from_seed(7);
    for _ in 0..2000 {
        let draw = rng.draw();
        let u = draw as f64 / DRAW_RANGE as f64;
        let exact = if u < 0.5 {
            (u * 28800.0 * 14400.0).sqrt()
        } else {
            28800.0 - ((1.0 - u) * 28800.0 * 14400.0).sqrt()
        };
        let sampled = sampler.sample_from_draw(draw) as f64;
        assert!((sampled - exact).abs() <= 0.5 + 1e-6, "{draw}: {sampled} vs {exact}");
    }
}

#[test]
fn sampler_stays_within_the_support() {
    let mut rng = RandomSource::from_seed(11);
    for skew in [false, true] {
        let sampler = TriangularPdfSampler::new(3, 4, 9, skew).unwrap();
        for _ in 0..2000 {
            let r = sampler.sample(&mut rng);
            assert!((3..=9).contains(&r));
        }
    }
}

#[test]
fn skew_takes_the_cube_root() {
    assert_eq!(skew_draw(0), 0);
    assert_eq!(skew_draw(1), 1 << 16);
    assert_eq!(skew_draw(DRAW_RANGE / 8), DRAW_RANGE / 2);
    assert_eq!(skew_draw(DRAW_RANGE - 1), DRAW_RANGE - 1);
    let sampler = TriangularPdfSampler::new(0, 5, 10, true).unwrap();
    assert_eq!(sampler.sample_from_draw(DRAW_RANGE / 8), 5);
    let mut rng = RandomSource::from_seed(3);
    for _ in 0..1000 {
        let draw = rng.draw();
        let exact = (draw as f64 / DRAW_RANGE as f64).cbrt() * DRAW_RANGE as f64;
        let t = skew_draw(draw) as f64;
        assert!(t <= exact + 1e-3 && exact < t + 1.0 + 1e-3, "{draw}");
    }
}

#[test]
fn integer_roots() {
    let d = DRAW_RANGE as u128;
    assert_eq!(rounded_root_ties_up(0, 10), 0);
    assert_eq!(rounded_root_ties_up(16 * d, 10), 4);
    assert_eq!(rounded_root_ties_up(d * 25 / 4, 10), 3);
    assert_eq!(rounded_root_ties_up(d * 25 / 4 - 1, 10), 2);
    assert_eq!(rounded_root_ties_up(100 * d, 10), 10);
    assert_eq!(rounded_root_ties_down(0, 10), 0);
    assert_eq!(rounded_root_ties_down(16 * d, 10), 4);
    assert_eq!(rounded_root_ties_down(d * 25 / 4, 10), 2);
    assert_eq!(rounded_root_ties_down(d * 25 / 4 + 1, 10), 3);
    assert_eq!(rounded_root_ties_down(100 * d, 10), 10);
    assert_eq!(rounded_cube_root(0), 0);
    assert_eq!(rounded_cube_root(26), 2);
    assert_eq!(rounded_cube_root(27), 3);
    assert_eq!(rounded_cube_root(d * d * d - 1), DRAW_RANGE - 1);
}

#[test]
fn probability_covers_draws_below_it() {
    let half = Probability::new(1, 2).unwrap();
    assert!(half.covers(0));
    assert!(half.covers(DRAW_RANGE / 2 - 1));
    assert!(!half.covers(DRAW_RANGE / 2));
    assert!(!half.covers(DRAW_RANGE - 1));
    let never = Probability::zero();
    assert!(!never.covers(0));
    let always = Probability::new(3, 2).unwrap();
    assert!(always.covers(DRAW_RANGE - 1));
    assert!(Probability::new(1, 0).is_none());
}

#[test]
fn hourly_rate_per_second() {
    let rate = Ratio::new(3, 1).unwrap();
    let p = Probability::per_second(&rate);
    assert_eq!((p.numerator(), p.denominator()), (3, 3600));
    let rate = Ratio::new(5, 2).unwrap();
    let p = Probability::per_second(&rate);
    assert_eq!((p.numerator(), p.denominator()), (5, 7200));
    assert!(Ratio::new(1, 0).is_none());
    assert!(!Ratio::new(0, 4).unwrap().is_positive());
    assert!(Ratio::new(1, 4).unwrap().is_positive());
}

#[test]
fn draws_are_below_the_range_and_follow_the_seed() {
    let mut first = RandomSource::from_seed(42);
    let mut second = RandomSource::from_seed(42);
    let mut other = RandomSource::from_seed(43);
    let mut differs = false;
    let mut varies = false;
    let mut previous = None;
    for _ in 0..1000 {
        let a = first.draw();
        assert!(a < DRAW_RANGE);
        assert_eq!(a, second.draw());
        differs |= a != other.draw();
        varies |= previous.is_some() && previous != Some(a);
        previous = Some(a);
    }
    assert!(differs);
    assert!(varies);
}

#[test]
fn events_follow_their_probability() {
    let mut rng = RandomSource::from_seed(5);
    let never = Probability::zero();
    let always = Probability::new(1, 1).unwrap();
    let quarter = Probability::new(1, 4).unwrap();
    let mut hits = 0;
    for _ in 0..20000 {
        assert!(!event_occurred(&mut rng, &never));
        assert!(event_occurred(&mut rng, &always));
        if event_occurred(&mut rng, &quarter) {
            hits += 1;
        }
    }
    assert!((4500..5500).contains(&hits), "{hits}");
}

#[test]
fn a_draw_is_the_top_of_a_word() {
    assert_eq!(DRAW_RANGE, 1 << 24);
    assert_eq!(draw_from_word(0), 0);
    assert_eq!(draw_from_word(255), 0);
    assert_eq!(draw_from_word(256), 1);
    assert_eq!(draw_from_word(0x8000_0000), DRAW_RANGE / 2);
    assert_eq!(draw_from_word(u32::MAX), DRAW_RANGE - 1);
}
