use similarity_checker::score::Ratio;
use similarity_checker::score::Score;
use similarity_checker::score::scale_f64;
use similarity_checker::score::FINE;
use similarity_checker::score::PERCENT;
use similarity_checker::score::SCALE;

#[test]
fn scale_is_a_billion() {
    assert_eq!(SCALE, 1_000_000_000);
    assert_eq!(PERCENT * 100, SCALE);
    assert_eq!(Score::one().billionths(), SCALE);
    assert_eq!(Score::zero().billionths(), 0);
}

#[test]
fn ratio_is_rounded_down() {
    assert_eq!(Score::from_ratio(1, 3).billionths(), 333_333_333);
    assert_eq!(Score::from_ratio(2, 3).billionths(), 666_666_666);
    assert_eq!(Score::from_ratio(0, 5).billionths(), 0);
    assert_eq!(Score::from_ratio(5, 5).billionths(), 1_000_000_000);
    assert_eq!(Score::from_wide_ratio(6, 11).billionths(), 545_454_545);
}

#[test]
fn billionths_above_one_are_one() {
    assert_eq!(Score::from_billionths(5).billionths(), 5);
    assert_eq!(Score::from_billionths(2_000_000_000).billionths(), 1_000_000_000);
}

#[test]
fn percent_goes_both_ways() {
    assert_eq!(Score::from_percent(70).billionths(), 700_000_000);
    assert_eq!(Score::from_percent(0).billionths(), 0);
    assert_eq!(Score::from_percent(100).billionths(), 1_000_000_000);
    assert_eq!(Score::from_percent(200).billionths(), 1_000_000_000);
    assert_eq!(Score::from_percent(70).percent(), 70);
    assert_eq!(Score::from_billionths(709_999_999).percent(), 70);
}

#[test]
fn binary64_numbers_between_zero_and_one() {
    assert_eq!(Score::from_f64_bits(0.5f64.to_bits()).billionths(), 500_000_000);
    assert_eq!(Score::from_f64_bits(0.25f64.to_bits()).billionths(), 250_000_000);
    assert_eq!(Score::from_f64_bits(1.0f64.to_bits()).billionths(), 1_000_000_000);
    assert_eq!(Score::from_f64_bits(0.0f64.to_bits()).billionths(), 0);
    assert_eq!(Score::from_f64_bits((1.0f64 / 3.0).to_bits()).billionths(), 333_333_333);
    assert_eq!(Score::from_f64_bits(0.866f64.to_bits()).billionths(), 866_000_000);
    assert_eq!(Score::from_f64_bits(0.6f64.to_bits()).billionths(), 600_000_000);
    assert_eq!(Score::from_f64_bits(0.999_999_999_9f64.to_bits()).billionths(), 999_999_999);
    assert_eq!(Score::from_f64_bits(1e-300f64.to_bits()).billionths(), 0);
    assert_eq!(Score::from_f64_bits(f64::MIN_POSITIVE.to_bits()).billionths(), 0);
    assert_eq!(Score::from_f64_bits(5e-324f64.to_bits()).billionths(), 0);
}

#[test]
fn binary64_numbers_agree_with_floating_point() {
    let mut x = 0.000_123_4f64;
    while x < 1.0 {
        let got = Score::from_f64_bits(x.to_bits()).billionths() as f64;
        assert!((got - x * 1e9).abs() <= 1.0);
        x = x * 1.37 + 0.000_001;
    }
}

#[test]
fn a_binary64_number_reaches_a_percentage_as_it_does_in_floating_point() {
    for percent in 0..=100u8 {
        let threshold = percent as f64 / 100.0;
        let bits = threshold.to_bits();
        for candidate in [bits.wrapping_sub(2), bits.wrapping_sub(1), bits, bits + 1, bits + 2] {
            let number = f64::from_bits(candidate);
            if number.is_nan() || number < 0.0 {
                continue;
            }
            let reaches = Score::from_f64_bits(candidate).billionths()
                >= Score::from_percent(percent).billionths();
            assert_eq!(reaches, number >= threshold, "{} {}", percent, number);
        }
    }
}

#[test]
fn binary64_numbers_on_a_finer_scale() {
    // A half stands for the numbers up to a half and 2^-54.
    assert_eq!(scale_f64(0.5f64.to_bits(), FINE), 500_000_000_000_000_055);
    assert_eq!(scale_f64(1.0f64.to_bits(), FINE), FINE);
    assert_eq!(scale_f64(0.0f64.to_bits(), FINE), 0);
    assert_eq!(scale_f64(0.25f64.to_bits(), 1000), 250);
    assert_eq!(scale_f64((-1.0f64).to_bits(), FINE), 0);
    assert_eq!(scale_f64(f64::NAN.to_bits(), FINE), 0);
    assert_eq!(scale_f64(2.0f64.to_bits(), 1000), 1000);
    // The number nearest to 5/9 stands for 5/9 among others.
    let five_ninths = scale_f64((5.0f64 / 9.0).to_bits(), FINE);
    assert!(five_ninths >= 555_555_555_555_555_555);
    assert!(five_ninths < 555_555_555_555_555_555 + 200);
}

#[test]
fn binary64_numbers_outside_the_range() {
    assert_eq!(Score::from_f64_bits(1.5f64.to_bits()).billionths(), 1_000_000_000);
    assert_eq!(Score::from_f64_bits(f64::MAX.to_bits()).billionths(), 1_000_000_000);
    assert_eq!(Score::from_f64_bits(f64::INFINITY.to_bits()).billionths(), 1_000_000_000);
    assert_eq!(Score::from_f64_bits((-0.5f64).to_bits()).billionths(), 0);
    assert_eq!(Score::from_f64_bits((-0.0f64).to_bits()).billionths(), 0);
    assert_eq!(Score::from_f64_bits(f64::NEG_INFINITY.to_bits()).billionths(), 0);
    assert_eq!(Score::from_f64_bits(f64::NAN.to_bits()).billionths(), 0);
}

#[test]
fn blend_weighs_in_tenths_and_rounds_to_the_nearest() {
    let one = FINE;
    let half = FINE / 2;
    assert_eq!(Score::blend(6, one, 3, half, 1, 0).billionths(), 750_000_000);
    assert_eq!(Score::blend(5, one, 3, half, 2, 0).billionths(), 650_000_000);
    assert_eq!(Score::blend(10, half, 0, one, 0, one).billionths(), 500_000_000);
    assert_eq!(Score::blend(6, one, 3, one, 1, one).billionths(), 1_000_000_000);
    // A third of a billionth is cut, two thirds make one.
    assert_eq!(Score::blend(10, 333_333_333, 0, 0, 0, 0).billionths(), 0);
    assert_eq!(Score::blend(10, 666_666_667, 0, 0, 0, 0).billionths(), 1);
    assert_eq!(Score::blend(10, 499_999_999, 0, 0, 0, 0).billionths(), 0);
    assert_eq!(Score::blend(10, 500_000_000, 0, 0, 0, 0).billionths(), 1);
}

#[test]
fn a_ratio_on_the_finer_scale() {
    assert_eq!(Ratio { num: 1, den: 3 }.fine(), 333_333_333_333_333_333);
    assert_eq!(Ratio { num: 2, den: 3 }.fine(), 666_666_666_666_666_666);
    assert_eq!(Ratio { num: 7, den: 7 }.fine(), FINE);
    assert_eq!(Ratio { num: 0, den: 7 }.fine(), 0);
}

#[test]
fn least_is_the_smaller_score() {
    let a = Score::from_billionths(3);
    let b = Score::from_billionths(7);
    assert_eq!(a.least(b).billionths(), 3);
    assert_eq!(b.least(a).billionths(), 3);
}

#[test]
fn ratio_against_tenths_is_exact() {
    let four_fifths = Ratio { num: 4, den: 5 };
    assert!(!four_fifths.exceeds_tenths(8));
    assert!(four_fifths.exceeds_tenths(7));
    let just_above = Ratio { num: 800_000_001, den: 1_000_000_000 };
    assert!(just_above.exceeds_tenths(8));
    assert_eq!(four_fifths.score().billionths(), 800_000_000);
}
