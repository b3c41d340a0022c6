use mixflow::model::EqBandCfg;
use mixflow::reconcile::default_bands;
use mixflow::sanitize::migrate_legacy_bands;
use mixflow::setup::order_bands;

fn band(freq: f32, gain: f32) -> EqBandCfg {
    EqBandCfg { freq: freq.to_bits(), gain: gain.to_bits() }
}

fn freq(b: &EqBandCfg) -> f32 {
    f32::from_bits(b.freq)
}

fn gain(b: &EqBandCfg) -> f32 {
    f32::from_bits(b.gain)
}

#[test]
fn sanitize_bands_truncates_to_ten() {
    let bands: Vec<EqBandCfg> = (0..15).map(|i| band(100.0 + i as f32 * 500.0, 1.0)).collect();
    assert_eq!(order_bands(&bands).len(), 10);
}

#[test]
fn sanitize_bands_leaves_well_spaced_points_alone() {
    let input = vec![band(80.0, 2.0), band(1000.0, -3.0), band(8000.0, 4.0)];
    let out = order_bands(&input);
    for (a, b) in input.iter().zip(out.iter()) {
        assert_eq!(freq(a), freq(b));
        assert_eq!(gain(a), gain(b));
    }
}

#[test]
fn order_bands_sorts_by_frequency() {
    let out = order_bands(&vec![band(20_000.0, 12.0), band(20.0, -12.0), band(500.0, 3.0)]);
    let freqs: Vec<f32> = out.iter().map(freq).collect();
    assert_eq!(freqs, vec![20.0, 500.0, 20_000.0]);
    assert_eq!(gain(&out[0]), -12.0);
    assert_eq!(gain(&out[2]), 12.0);
}

#[test]
fn order_bands_uses_total_order_for_signs() {
    // total_cmp: -0.0 before +0.0, negatives ascending.
    let out = order_bands(&vec![band(0.0, 1.0), band(-5.0, 2.0), band(-0.0, 3.0), band(-100.0, 4.0)]);
    let gains: Vec<f32> = out.iter().map(gain).collect();
    assert_eq!(gains, vec![4.0, 2.0, 3.0, 1.0]);
}

#[test]
fn order_bands_is_stable_for_equal_frequencies() {
    let out = order_bands(&vec![band(300.0, 1.0), band(100.0, 2.0), band(300.0, 3.0), band(100.0, 4.0)]);
    let gains: Vec<f32> = out.iter().map(gain).collect();
    assert_eq!(gains, vec![2.0, 4.0, 1.0, 3.0]);
}

#[test]
fn order_bands_keeps_the_lowest_ten() {
    let bands: Vec<EqBandCfg> = (0..12).rev().map(|i| band(100.0 * (i + 1) as f32, i as f32)).collect();
    let out = order_bands(&bands);
    assert_eq!(out.len(), 10);
    assert_eq!(freq(&out[0]), 100.0);
    assert_eq!(freq(&out[9]), 1000.0);
}

#[test]
fn order_bands_of_nothing_is_nothing() {
    assert!(order_bands(&Vec::new()).is_empty());
}

#[test]
fn default_bands_are_the_five_flat_legacy_points() {
    let b = default_bands();
    let freqs: Vec<f32> = b.iter().map(freq).collect();
    assert_eq!(freqs, vec![80.0, 250.0, 1000.0, 4000.0, 12000.0]);
    assert!(b.iter().all(|x| gain(x) == 0.0));
}

#[test]
fn legacy_gains_migrate_onto_the_fixed_frequencies() {
    let gains: Vec<u32> = vec![1.0f32, -2.0, 3.0].into_iter().map(f32::to_bits).collect();
    let b = migrate_legacy_bands(&gains);
    assert_eq!(b.len(), 3);
    assert_eq!(freq(&b[0]), 80.0);
    assert_eq!(freq(&b[2]), 1000.0);
    assert_eq!(gain(&b[1]), -2.0);
}

#[test]
fn an_empty_curve_falls_back_to_the_flat_default() {
    let mut c = mixflow::setup::default_config(
        "out-1".to_string(),
        "game".to_string(),
        "chat".to_string(),
        "media".to_string(),
        "mic".to_string(),
    );
    c.lines[0].eq_bands = vec![band(440.0, 6.0)];
    mixflow::edits::set_line_eq_bands(&mut c, "game", vec![]);
    assert_eq!(c.lines[0].eq_bands.len(), 5);
    assert_eq!(format!("{:?}", c.lines[0].eq_bands), format!("{:?}", default_bands()));
    assert!(c.lines[0].eq_bands.iter().all(|b| gain(b) == 0.0));
}

#[test]
fn a_long_curve_keeps_ten_ordered_points() {
    let mut c = mixflow::setup::default_config(
        "out-1".to_string(),
        "game".to_string(),
        "chat".to_string(),
        "media".to_string(),
        "mic".to_string(),
    );
    let bands: Vec<EqBandCfg> = (0..14).rev().map(|i| band(100.0 * (i + 1) as f32, i as f32)).collect();
    mixflow::edits::set_line_eq_bands(&mut c, "chat", bands);
    let freqs: Vec<f32> = c.lines[1].eq_bands.iter().map(freq).collect();
    assert_eq!(freqs, (1..=10).map(|i| 100.0 * i as f32).collect::<Vec<f32>>());
    assert_eq!(c.lines[0].eq_bands.len(), 5);
}
