use rsstv::common::DSPOut;

fn hz(v: &[i32]) -> Vec<i32> {
    v.iter().map(|f| f * 1000).collect()
}

#[test]
fn take_till_stops_at_first_near_sample() {
    let t = hz(&[0, 800, 1600, 1000, 1200, 1900]);
    let mut c = DSPOut::new(&t);
    assert_eq!(c.take_till_frq(1_200_000), Some(()));
    // 1600 Hz is 400 Hz away; 1000 Hz is the first within 250 Hz.
    assert_eq!(c.get_pos(), 3);
    // Already on a near sample: stays put.
    assert_eq!(c.take_till_frq(1_200_000), Some(()));
    assert_eq!(c.get_pos(), 3);
}

#[test]
fn take_till_fails_when_exhausted() {
    let t = hz(&[0, 0, 1500, 2300]);
    let mut c = DSPOut::new(&t);
    assert_eq!(c.take_till_frq(1_200_000), None);
}

#[test]
fn take_while_stops_at_first_far_sample() {
    let t = hz(&[1900, 1800, 2000, 1651, 1650, 1900]);
    let mut c = DSPOut::new(&t);
    assert_eq!(c.take_while_frq(1_900_000), Some(()));
    // |1650 - 1900| = 250 is not within tolerance.
    assert_eq!(c.get_pos(), 4);
}

#[test]
fn take_while_fails_when_exhausted() {
    let t = hz(&[1900, 1900, 1900]);
    let mut c = DSPOut::new(&t);
    assert_eq!(c.take_while_frq(1_900_000), None);
}

#[test]
fn take_while_starts_from_cursor() {
    let t = hz(&[0, 1200, 1200, 1500]);
    let mut c = DSPOut::new(&t);
    c.set_to(1);
    assert_eq!(c.take_while_frq(1_200_000), Some(()));
    assert_eq!(c.get_pos(), 3);
}

#[test]
fn take_us_returns_mean_and_advances() {
    let t = hz(&[1000, 2000, 3000, 4000, 5000]);
    let mut c = DSPOut::new(&t);
    c.set_to(1);
    // 68.1 us is 3.003 samples at 44.1 kHz: three samples.
    assert_eq!(c.take_us(68_100), Some(3_000_000));
    assert_eq!(c.get_pos(), 4);
}

#[test]
fn take_us_rounds_mean_down() {
    let t = vec![-3, -4, 1, 2];
    let mut c = DSPOut::new(&t);
    // 45.351 us is 1.99998 samples: two samples.
    assert_eq!(c.take_us(45_351), Some(-4));
    assert_eq!(c.take_us(45_351), Some(1));
}

#[test]
fn take_us_fails_without_moving_when_short() {
    let t = hz(&[1500, 1500, 1500]);
    let mut c = DSPOut::new(&t);
    c.set_to(1);
    assert_eq!(c.take_us(68_100), None);
    assert_eq!(c.get_pos(), 1);
}

#[test]
fn take_us_fails_past_the_end() {
    let t = hz(&[1500]);
    let mut c = DSPOut::new(&t);
    c.set_to(5);
    assert_eq!(c.take_us(22_676), None);
}

#[test]
fn take_us_handles_extreme_values() {
    let t = vec![i32::MAX, i32::MAX, i32::MIN, i32::MIN];
    let mut c = DSPOut::new(&t);
    assert_eq!(c.take_us(45_351), Some(i32::MAX));
    assert_eq!(c.take_us(45_351), Some(i32::MIN));
}
