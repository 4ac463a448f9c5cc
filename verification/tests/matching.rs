use polylight::cmf::{evaluate_cmf, xfit_1931, yfit_1931, zfit_1931};

fn g(wave: f64, mean: f64, below: f64, above: f64) -> f64 {
    let t = (wave - mean) * if wave < mean { below } else { above };
    (-0.5 * t * t).exp()
}

fn analytic_fit(wave: f64) -> (f64, f64, f64) {
    (
        0.362 * g(wave, 442.0, 0.0624, 0.0374) + 1.056 * g(wave, 599.8, 0.0264, 0.0323)
            - 0.065 * g(wave, 501.1, 0.0490, 0.0382),
        0.821 * g(wave, 568.8, 0.0213, 0.0247) + 0.286 * g(wave, 530.9, 0.0613, 0.0322),
        1.217 * g(wave, 437.0, 0.0845, 0.0278) + 0.681 * g(wave, 459.0, 0.0385, 0.0725),
    )
}

#[test]
fn responses_at_chosen_wavelengths() {
    assert_eq!(evaluate_cmf(360_000_000), (1, 42, 477));
    assert_eq!(evaluate_cmf(400_000_000), (11_675, 1_280, 60_786));
    assert_eq!(evaluate_cmf(430_000_000), (273_393, 10_384, 1_386_823));
    assert_eq!(evaluate_cmf(454_000_000), (323_426, 41_307, 1_756_905));
    assert_eq!(evaluate_cmf(500_000_000), (2_356, 328_117, 270_764));
    assert_eq!(evaluate_cmf(555_000_000), (516_945, 997_928, 5_604));
    assert_eq!(evaluate_cmf(600_000_000), (1_055_926, 634_136, 43));
    assert_eq!(evaluate_cmf(650_000_000), (283_632, 110_045, 0));
    assert_eq!(evaluate_cmf(700_000_000), (5_612, 4_305, 0));
    assert_eq!(evaluate_cmf(780_000_000), (0, 1, 0));
    assert_eq!(evaluate_cmf(830_000_000), (0, 0, 0));
}

#[test]
fn evaluate_cmf_is_the_three_fits() {
    let mut wave: i64 = 350_000_000;
    while wave < 850_000_000 {
        assert_eq!(evaluate_cmf(wave), (xfit_1931(wave), yfit_1931(wave), zfit_1931(wave)));
        wave += 7_300_000;
    }
}

#[test]
fn responses_follow_the_analytic_fit() {
    let mut wave: i64 = 300_000_000;
    while wave < 900_000_000 {
        let (x, y, z) = evaluate_cmf(wave);
        let (rx, ry, rz) = analytic_fit(wave as f64 / 1e6);
        assert!((x as f64 - rx * 1e6).abs() <= 2.0, "x at {}", wave);
        assert!((y as f64 - ry * 1e6).abs() <= 2.0, "y at {}", wave);
        assert!((z as f64 - rz * 1e6).abs() <= 2.0, "z at {}", wave);
        wave += 700_000;
    }
}

#[test]
fn no_step_at_the_centre_of_a_lobe() {
    let below = evaluate_cmf(441_999_000);
    let at = evaluate_cmf(442_000_000);
    let above = evaluate_cmf(442_001_000);
    assert_eq!(at, (361_198, 21_397, 1_755_002));
    assert_eq!(below, (361_198, 21_396, 1_754_992));
    assert_eq!(above, (361_198, 21_399, 1_755_012));
    // the slope of z near 442 nm is about 0.01 per nanometre: two thousandths of a
    // nanometre apart the responses differ by no more than 0.00003
    assert!((above.0 - below.0).abs() <= 30);
    assert!((above.1 - below.1).abs() <= 30);
    assert!((above.2 - below.2).abs() <= 30);
}

#[test]
fn the_two_sides_of_a_lobe_differ() {
    // one nanometre either side of 442 nm: the side below falls faster
    assert_eq!(xfit_1931(441_000_000), 360_607);
    assert_eq!(xfit_1931(443_000_000), 360_818);
}

#[test]
fn luminosity_peaks_near_555_nm() {
    let y = yfit_1931(555_000_000);
    assert!((y - 1_000_000).abs() <= 12_000);
    assert!(yfit_1931(500_000_000) < y);
    assert!(yfit_1931(610_000_000) < y);
}

#[test]
fn x_response_dips_between_its_two_peaks() {
    let dip = xfit_1931(501_500_000);
    assert_eq!(dip, 1_858);
    assert!(dip < xfit_1931(442_000_000));
    assert!(dip < xfit_1931(599_800_000));
}

#[test]
fn every_wavelength_has_a_response() {
    assert_eq!(evaluate_cmf(0), (0, 0, 0));
    assert_eq!(evaluate_cmf(-555_000_000), (0, 0, 0));
    assert_eq!(evaluate_cmf(i64::MAX), (0, 0, 0));
    assert_eq!(evaluate_cmf(i64::MIN), (0, 0, 0));
}
