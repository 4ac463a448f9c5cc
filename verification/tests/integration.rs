use polylight::color::{Spd, Xyz};
use polylight::spectrum::{integrate, uniform_samples};

const NM: i64 = 1_000_000;

#[test]
fn no_sample_gives_zero() {
    assert_eq!(integrate(&[]), Xyz { x: 0, y: 0, z: 0 });
    assert_eq!(Xyz::from(Spd(&[])), Xyz { x: 0, y: 0, z: 0 });
}

#[test]
fn zero_power_gives_zero() {
    let samples = [(450 * NM, 0), (555 * NM, 0), (610 * NM, 0)];
    assert_eq!(integrate(&samples), Xyz { x: 0, y: 0, z: 0 });
}

#[test]
fn one_line_at_the_peak_of_luminosity() {
    let xyz = integrate(&[(555 * NM, 1_000_000)]);
    assert_eq!(xyz, Xyz { x: 516_945, y: 997_928, z: 5_604 });
    // Y is one within the 1.2 % of the fit; X and Z are small but not zero
    assert!((xyz.y - 1_000_000).abs() <= 12_000);
    assert!(xyz.x > 0 && xyz.x < xyz.y);
    assert!(xyz.z > 0 && xyz.z < 10_000);
}

#[test]
fn from_spd_is_integrate() {
    let samples = [(450 * NM, 1_500_000), (550 * NM, 250_000), (610 * NM, 3_000_001)];
    assert_eq!(Xyz::from(Spd(&samples)), integrate(&samples));
    assert_eq!(integrate(&samples), Xyz { x: 3_624_668, y: 1_799_753, z: 2_674_300 });
}

#[test]
fn flat_spectrum_is_near_equal_energy() {
    let powers = vec![1_000_000_i64; 471];
    let samples = uniform_samples(360 * NM, NM, &powers);
    assert_eq!(samples.len(), 471);
    assert_eq!(samples[0], (360 * NM, 1_000_000));
    assert_eq!(samples[470], (830 * NM, 1_000_000));
    let xyz = integrate(&samples);
    assert_eq!(xyz, Xyz { x: 106_714_461, y: 106_946_192, z: 106_855_679 });
    // X, Y and Z agree within a few percent
    let tolerance = xyz.y / 50;
    assert!((xyz.x - xyz.y).abs() <= tolerance);
    assert!((xyz.z - xyz.y).abs() <= tolerance);
}

#[test]
fn laid_end_to_end_the_results_add() {
    let a = [(450 * NM, 1_500_000), (550 * NM, 250_000), (610 * NM, 3_000_001)];
    let b = [(450 * NM, 700_000), (520 * NM, 1_234_567)];
    let mut both = a.to_vec();
    both.extend_from_slice(&b);
    let (ra, rb, rab) = (integrate(&a), integrate(&b), integrate(&both));
    assert_eq!(rb, Xyz { x: 326_849, y: 896_369, z: 1_351_898 });
    assert_eq!(rab, Xyz { x: 3_951_517, y: 2_696_122, z: 4_026_198 });
    assert!((rab.x - (ra.x + rb.x)).abs() <= 1);
    assert!((rab.y - (ra.y + rb.y)).abs() <= 1);
    assert!((rab.z - (ra.z + rb.z)).abs() <= 1);
}

#[test]
fn added_power_by_power_the_results_add() {
    let a = [(450 * NM, 1_500_000), (550 * NM, 250_000), (610 * NM, 3_000_001)];
    let b = [(450 * NM, 300_000), (550 * NM, 2_000_000), (610 * NM, 7)];
    let sum: Vec<(i64, i64)> = a.iter().zip(b.iter()).map(|(p, q)| (p.0, p.1 + q.1)).collect();
    let (ra, rb, rs) = (integrate(&a), integrate(&b), integrate(&sum));
    assert_eq!(rb, Xyz { x: 970_562, y: 1_998_954, z: 551_932 });
    assert_eq!(rs, Xyz { x: 4_595_231, y: 3_798_707, z: 3_226_232 });
    assert!((rs.x - (ra.x + rb.x)).abs() <= 1);
    assert!((rs.y - (ra.y + rb.y)).abs() <= 1);
    assert!((rs.z - (ra.z + rb.z)).abs() <= 1);
}

#[test]
fn scaled_power_scales_the_result() {
    let a = [(450 * NM, 1_500_000), (550 * NM, 250_000), (610 * NM, 3_000_001)];
    let tripled: Vec<(i64, i64)> = a.iter().map(|s| (s.0, 3 * s.1)).collect();
    let (ra, rt) = (integrate(&a), integrate(&tripled));
    assert_eq!(rt, Xyz { x: 10_874_005, y: 5_399_258, z: 8_022_900 });
    assert!(2 * (rt.x - 3 * ra.x).abs() <= 3);
    assert!(2 * (rt.y - 3 * ra.y).abs() <= 3);
    assert!(2 * (rt.z - 3 * ra.z).abs() <= 3);
    let none: Vec<(i64, i64)> = a.iter().map(|s| (s.0, 0)).collect();
    assert_eq!(integrate(&none), Xyz { x: 0, y: 0, z: 0 });
}

#[test]
fn the_order_of_the_samples_does_not_matter() {
    let a = [(450 * NM, 1_500_000), (550 * NM, 250_000), (610 * NM, 3_000_001), (700 * NM, 9)];
    let mut reversed = a.to_vec();
    reversed.reverse();
    assert_eq!(integrate(&a), integrate(&reversed));
}

#[test]
fn a_sample_counts_every_time_it_occurs() {
    let once = integrate(&[(555 * NM, 1_000_000)]);
    let twice = integrate(&[(555 * NM, 1_000_000), (555 * NM, 1_000_000)]);
    assert_eq!(twice, Xyz { x: 2 * once.x, y: 2 * once.y, z: 2 * once.z });
}

#[test]
fn negative_power_is_taken_as_it_is() {
    let xyz = integrate(&[(555 * NM, -1_000_000)]);
    assert_eq!(xyz, Xyz { x: -516_945, y: -997_928, z: -5_604 });
    let cancelled = integrate(&[(555 * NM, 1_000_000), (555 * NM, -1_000_000)]);
    assert_eq!(cancelled, Xyz { x: 0, y: 0, z: 0 });
}

#[test]
fn the_largest_power_fits_once() {
    let xyz = integrate(&[(555 * NM, i64::MAX)]);
    assert_eq!(
        xyz,
        Xyz { x: 4_767_976_057_591_892_080, y: 9_204_261_209_994_412_712, z: 51_687_776_894_534_164 }
    );
}

#[test]
fn a_result_out_of_range_saturates() {
    let high = integrate(&[(555 * NM, i64::MAX); 3]);
    assert_eq!(high, Xyz { x: i64::MAX, y: i64::MAX, z: 155_063_330_683_602_491 });
    let low = integrate(&[(555 * NM, i64::MIN); 3]);
    assert_eq!(low, Xyz { x: i64::MIN, y: i64::MIN, z: -155_063_330_683_602_491 });
}

#[test]
fn sums_beyond_range_can_come_back() {
    // the sum passes the range of the result on the way, and ends inside it
    let samples = [
        (555 * NM, i64::MAX),
        (555 * NM, i64::MAX),
        (555 * NM, i64::MIN),
        (555 * NM, i64::MIN),
        (555 * NM, 1_000_000),
    ];
    let back = integrate(&samples);
    let twice_least = integrate(&[(555 * NM, -2)]);
    let one = integrate(&[(555 * NM, 1_000_000)]);
    assert_eq!(twice_least, Xyz { x: -1, y: -2, z: 0 });
    assert_eq!(back, Xyz { x: one.x - 1, y: one.y - 2, z: one.z });
}

#[test]
fn uniform_samples_step_by_the_interval() {
    let samples = uniform_samples(400 * NM, 5 * NM / 2, &[10, 20, 30, 40]);
    assert_eq!(
        samples,
        vec![(400 * NM, 10), (402_500_000, 20), (405 * NM, 30), (407_500_000, 40)]
    );
    assert_eq!(uniform_samples(400 * NM, NM, &[]), vec![]);
    assert_eq!(uniform_samples(700 * NM, -100 * NM, &[1, 2, 3]), vec![
        (700 * NM, 1),
        (600 * NM, 2),
        (500 * NM, 3)
    ]);
}

#[test]
fn uniform_samples_keep_wavelengths_in_range() {
    let samples = uniform_samples(i64::MAX - 1, 1, &[1, 2, 3]);
    assert_eq!(samples, vec![(i64::MAX - 1, 1), (i64::MAX, 2), (i64::MAX, 3)]);
    let samples = uniform_samples(i64::MIN, i64::MIN, &[1, 2]);
    assert_eq!(samples, vec![(i64::MIN, 1), (i64::MIN, 2)]);
}

#[test]
fn the_crate_root_names_the_pipeline() {
    let samples = polylight::uniform_samples(400 * NM, 10 * NM, &[1_000_000; 31]);
    let xyz: polylight::Xyz = polylight::integrate(&samples);
    let rgb = xyz.to_nonlinear(polylight::srgb());
    assert_eq!(polylight::evaluate_cmf(555 * NM), (516_945, 997_928, 5_604));
    assert_eq!(polylight::SCALE, 1_000_000);
    assert_eq!(polylight::in_gamut(rgb), polylight::clamp_to_gamut(rgb) == rgb);
}
