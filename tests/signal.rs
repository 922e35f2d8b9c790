use rsstv::common::{us_to_n_samples, within_250hz, Component, Signal};
use rsstv::SAMPLE_RATE;

fn samples_of(phases: &[u16]) -> Vec<i16> {
    phases
        .iter()
        .map(|p| {
            let angle = 2.0 * std::f64::consts::PI * (*p as f64) / SAMPLE_RATE as f64;
            (angle.sin() * 10000.0).round() as i16
        })
        .collect()
}

#[test]
fn new_signal_is_empty() {
    let s = Signal::new();
    assert!(s.components().is_empty());
    assert!(s.to_phases().is_empty());
}

#[test]
fn push_appends_components_in_order() {
    let mut s = Signal::new();
    s.push(1900, 300_000_000);
    s.push(0, 1_000);
    assert_eq!(
        s.components(),
        &vec![
            Component { freq: 1900, len_ns: 300_000_000 },
            Component { freq: 0, len_ns: 1_000 }
        ]
    );
}

#[test]
fn component_sample_counts_truncate() {
    // 457.6 us is 20.18 samples, 572 us is 25.22, 4.862 ms is 214.41, 300 ms is 13230.
    for (ns, n) in [(457_600u64, 20usize), (572_000, 25), (4_862_000, 214), (300_000_000, 13230)] {
        let mut s = Signal::new();
        s.push(1500, ns);
        assert_eq!(s.to_phases().len(), n);
    }
}

#[test]
fn phases_advance_by_frequency() {
    let mut s = Signal::new();
    s.push(1000, 100_000); // 4.41 samples: 4
    let p = s.to_phases();
    assert_eq!(p, vec![0, 1000, 2000, 3000]);
}

#[test]
fn phases_wrap_at_sample_rate() {
    let mut s = Signal::new();
    s.push(20_000, 100_000);
    let p = s.to_phases();
    assert_eq!(p, vec![0, 20_000, 40_000, 15_900]);
}

#[test]
fn frequency_above_sample_rate_wraps() {
    let mut s = Signal::new();
    s.push(44_100 + 7, 100_000);
    assert_eq!(s.to_phases(), vec![0, 7, 14, 21]);
}

#[test]
fn phase_runs_on_across_components() {
    let mut s = Signal::new();
    s.push(1200, 1_000_000); // 44 samples
    s.push(1500, 1_000_000); // 44 samples
    let p = s.to_phases();
    assert_eq!(p.len(), 88);
    assert_eq!(p[0], 0);
    for k in 0..87 {
        let f = if k < 44 { 1200 } else { 1500 };
        assert_eq!(p[k + 1] as usize, (p[k] as usize + f) % SAMPLE_RATE);
    }
    // The first sample of the second tone continues from the last of the first.
    assert_eq!(p[44] as usize, (44 * 1200) % SAMPLE_RATE);
}

#[test]
fn no_jump_larger_than_the_waveform_slope_at_a_boundary() {
    let mut s = Signal::new();
    s.push(1200, 3_000_000);
    s.push(2300, 3_000_000);
    s.push(1100, 3_000_000);
    let samples = samples_of(&s.to_phases());
    let max_slope = 2.0 * std::f64::consts::PI * 2300.0 * 10000.0 / SAMPLE_RATE as f64 + 1.0;
    for w in samples.windows(2) {
        assert!(((w[1] as f64) - (w[0] as f64)).abs() <= max_slope);
    }
    // At the boundaries the step is no larger than the slope of either tone.
    for b in [132usize, 264] {
        let step = (samples[b] as f64 - samples[b - 1] as f64).abs();
        assert!(step <= max_slope);
    }
}

#[test]
fn rendering_is_deterministic() {
    let mut a = Signal::new();
    let mut b = Signal::new();
    for (f, l) in [(1900usize, 300_000_000u64), (1200, 10_000_000), (2100, 457_600)] {
        a.push(f, l);
        b.push(f, l);
    }
    assert_eq!(samples_of(&a.to_phases()), samples_of(&b.to_phases()));
}

#[test]
fn span_samples_round_to_nearest() {
    assert_eq!(us_to_n_samples(457_600), 20);
    assert_eq!(us_to_n_samples(572_000), 25);
    assert_eq!(us_to_n_samples(30_000_000), 1323);
    assert_eq!(us_to_n_samples(4_862_000), 214);
    // 0.6 samples rounds up, 0.4 rounds down.
    assert_eq!(us_to_n_samples(13_606), 1);
    assert_eq!(us_to_n_samples(9_070), 0);
    assert_eq!(us_to_n_samples(0), 0);
}

#[test]
fn tolerance_is_strictly_less_than_250_hz() {
    assert!(within_250hz(1_449_999, 1_200_000));
    assert!(!within_250hz(1_450_000, 1_200_000));
    assert!(within_250hz(950_001, 1_200_000));
    assert!(!within_250hz(950_000, 1_200_000));
    assert!(within_250hz(1_200_000, 1_200_000));
    assert!(!within_250hz(i32::MIN, i32::MAX));
}
