use biquad::{Biquad, Coefficients, DirectForm1, ToHertz, Type};
use num_complex::Complex64;
use rsstv::common::Signal;
use rsstv::martinm1::{DecodeResult, MartinM1};
use rsstv::raster::Raster;
use rsstv::SAMPLE_RATE;

const BLOCK: usize = 65_536;
const OVERLAP: usize = 2_048;

/// Rendered audio of a signal, scaled to +-1.0 full range.
fn audio(s: &Signal) -> Vec<f32> {
    s.to_phases()
        .iter()
        .map(|p| {
            let angle = 2.0 * std::f64::consts::PI * (*p as f64) / SAMPLE_RATE as f64;
            ((angle.sin() * 10000.0).round() as i16) as f32 / 32767.0
        })
        .collect()
}

/// Band-pass filter, analytic signal and quadrature discriminator: the
/// instantaneous frequency of every sample, in millihertz. The analytic signal
/// is computed over overlapping blocks to keep the tests quick.
fn demodulate(samples: &[f32]) -> Vec<i32> {
    let fs = (SAMPLE_RATE as f64).hz();
    let lp = Coefficients::<f64>::from_params(Type::LowPass, fs, 3.khz(), 1.0).unwrap();
    let hp = Coefficients::<f64>::from_params(Type::HighPass, fs, 1.khz(), 1.0).unwrap();
    let mut lp = DirectForm1::<f64>::new(lp);
    let mut hp = DirectForm1::<f64>::new(hp);
    let filtered: Vec<f64> = samples.iter().map(|x| hp.run(lp.run(*x as f64))).collect();
    let n = filtered.len();
    let keep = BLOCK - 2 * OVERLAP;
    let mut analytic = vec![Complex64::new(0.0, 0.0); n];
    let mut start = 0;
    while start < n {
        let lo = start.saturating_sub(OVERLAP);
        let hi = (lo + BLOCK).min(n);
        let block = hilbert_transform::hilbert(&filtered[lo..hi]);
        let end = (start + keep).min(n);
        analytic[start..end].copy_from_slice(&block[start - lo..end - lo]);
        start = end;
    }
    let mut prev = Complex64::new(0.0, 0.0);
    let mut out = Vec::with_capacity(n);
    for z in analytic {
        let f = (prev.conj() * z).arg() * SAMPLE_RATE as f64 / std::f64::consts::TAU;
        out.push((f * 1000.0).round() as i32);
        prev = z;
    }
    out
}

/// Every sample of every component at exactly its tone frequency, in millihertz.
fn ideal(s: &Signal) -> Vec<i32> {
    let mut t = Vec::new();
    for c in s.components() {
        let n = (c.len_ns as u128 * SAMPLE_RATE as u128 / 1_000_000_000) as usize;
        t.extend(std::iter::repeat(c.freq as i32 * 1000).take(n));
    }
    t
}

/// The ideal timeline with one sample at 1500 Hz where the stop bit meets the
/// first sync, so that the two 1200 Hz tones can be told apart.
fn crafted(img: &Raster) -> Vec<i32> {
    let mut t = ideal(&MartinM1::new().encode(img));
    t[38_808] = 1_500_000;
    t
}

fn pattern() -> Raster {
    let data: Vec<u8> = (0..320 * 256 * 3).map(|i| ((i * 37 + i / 960 * 11) % 256) as u8).collect();
    Raster::from_rgb(320, 256, data).unwrap()
}

fn solid(r: u8, g: u8, b: u8) -> Raster {
    let mut data = Vec::new();
    for _ in 0..320 * 256 {
        data.extend_from_slice(&[r, g, b]);
    }
    Raster::from_rgb(320, 256, data).unwrap()
}

fn finished(r: DecodeResult) -> Raster {
    match r {
        DecodeResult::Finished(img) => img,
        DecodeResult::Partial(_) => panic!("partial"),
        DecodeResult::NoneFound => panic!("none found"),
    }
}

fn through_audio(img: &Raster) -> Vec<i32> {
    demodulate(&audio(&MartinM1::new().encode(img)))
}

#[test]
fn exact_timeline_round_trip_within_one() {
    let img = pattern();
    let out = finished(MartinM1::new().decode(&crafted(&img)));
    assert_eq!((out.width, out.height), (320, 256));
    for (a, b) in img.data.iter().zip(out.data.iter()) {
        assert!(*a == *b || *a == *b + 1, "{} decoded as {}", a, b);
    }
}

#[test]
fn clean_timeline_decodes_one_row_early() {
    let img = pattern();
    let out = partial(MartinM1::new().decode(&ideal(&MartinM1::new().encode(&img))));
    for i in 0..255 * 960 {
        let (a, b) = (img.data[i + 960], out.data[i]);
        assert!(a == b || a == b + 1, "{} decoded as {}", a, b);
    }
    assert!(out.data[255 * 960..].iter().all(|b| *b == 0));
}

#[test]
fn zeros_find_nothing() {
    let mut m = MartinM1::new();
    assert!(matches!(m.decode(&vec![0; 441_000]), DecodeResult::NoneFound));
    assert!(m.get_image().data.iter().all(|b| *b == 0));
}

#[test]
fn ten_seconds_of_silence_find_nothing() {
    let t = demodulate(&vec![0.0f32; 441_000]);
    assert_eq!(t.len(), 441_000);
    assert!(matches!(MartinM1::new().decode(&t), DecodeResult::NoneFound));
}

#[test]
fn header_found_later_once_it_arrives() {
    let t = crafted(&pattern());
    let mut m = MartinM1::new();
    assert!(matches!(m.decode(&t[..20_000]), DecodeResult::NoneFound));
    assert!(matches!(m.decode(&t[..38_000]), DecodeResult::NoneFound));
    let once = finished(MartinM1::new().decode(&t));
    assert_eq!(finished(m.decode(&t)).data, once.data);
}

#[test]
fn partial_keeps_only_whole_rows() {
    let img = pattern();
    let t = crafted(&img);
    // Header, stop bit, 10 rows and part of the eleventh.
    let cut = 38_808 + 10 * 19_514 + 5_000;
    let mut m = MartinM1::new();
    let part = match m.decode(&t[..cut]) {
        DecodeResult::Partial(p) => p,
        _ => panic!("expected a partial image"),
    };
    let full = finished(MartinM1::new().decode(&t));
    assert_eq!(part.data[..10 * 960], full.data[..10 * 960]);
    assert!(part.data[10 * 960..].iter().all(|b| *b == 0));
}

#[test]
fn no_new_input_repeats_the_partial_result() {
    let t = crafted(&pattern());
    let cut = 38_808 + 50 * 19_514 + 123;
    let mut m = MartinM1::new();
    let first = match m.decode(&t[..cut]) {
        DecodeResult::Partial(p) => p,
        _ => panic!("expected a partial image"),
    };
    for _ in 0..3 {
        match m.decode(&t[..cut]) {
            DecodeResult::Partial(p) => assert_eq!(p.data, first.data),
            _ => panic!("expected the same partial image"),
        }
    }
    assert_eq!(m.get_image().data, first.data);
}

#[test]
fn pieces_decode_like_the_whole() {
    let t = crafted(&pattern());
    let once = finished(MartinM1::new().decode(&t));
    let mut m = MartinM1::new();
    let mut partials = 0;
    let mut end = 0;
    let mut last = None;
    while end < t.len() {
        end = (end + 4096).min(t.len());
        match m.decode(&t[..end]) {
            DecodeResult::Partial(_) => partials += 1,
            DecodeResult::Finished(img) => last = Some(img),
            DecodeResult::NoneFound => {},
        }
    }
    assert!(partials > 0);
    assert_eq!(last.unwrap().data, once.data);
}

#[test]
fn finished_stays_finished() {
    let t = crafted(&solid(9, 99, 199));
    let mut m = MartinM1::new();
    let a = finished(m.decode(&t));
    let b = finished(m.decode(&t));
    assert_eq!(a.data, b.data);
}

#[test]
fn header_found_after_leading_silence() {
    let t = crafted(&pattern());
    let once = finished(MartinM1::new().decode(&t));
    for pad in [1usize, 4096, 100_000] {
        let mut padded = vec![0; pad];
        padded.extend_from_slice(&t);
        assert_eq!(finished(MartinM1::new().decode(&padded)).data, once.data);
    }
}

#[test]
fn out_of_band_frequencies_saturate() {
    let mut t = crafted(&solid(0, 0, 0));
    // Replace the first green scan of row 0 with tones far above and below.
    let start = 38_808 + 214 + 25;
    for k in 0..20 {
        t[start + k] = 4_000_000;
        t[start + 20 + k] = -3_000_000;
    }
    let out = finished(MartinM1::new().decode(&t));
    assert_eq!(out.data[1], 255);
    assert_eq!(out.data[4], 0);
}

// Through audio, the 1200 Hz stop bit runs straight into the 1200 Hz sync of
// the first row, so the header's last step skips that sync too: every row
// comes out one row early and the last one waits for a sync that never comes.
// The decode therefore ends partial, with rows 0 to 254 holding rows 1 to 255.

fn partial(r: DecodeResult) -> Raster {
    match r {
        DecodeResult::Partial(img) => img,
        DecodeResult::Finished(_) => panic!("finished"),
        DecodeResult::NoneFound => panic!("none found"),
    }
}

fn bars() -> Raster {
    let mut data = Vec::new();
    for _ in 0..256 {
        for j in 0..320 {
            let px = if j < 107 {
                [255, 0, 0]
            } else if j < 214 {
                [0, 255, 0]
            } else {
                [0, 0, 255]
            };
            data.extend_from_slice(&px);
        }
    }
    Raster::from_rgb(320, 256, data).unwrap()
}

fn check_bars(out: &Raster, rows: u32) {
    for y in 0..rows {
        for (x0, x1, c) in [(2u32, 105u32, 0usize), (109, 212, 1), (216, 318, 2)] {
            for x in x0..x1 {
                for ch in 0..3 {
                    let v = out.get_channel(x, y, ch);
                    if ch == c {
                        assert!(v > 240, "({}, {}) channel {} is {}", x, y, ch, v);
                    } else {
                        assert!(v < 15, "({}, {}) channel {} is {}", x, y, ch, v);
                    }
                }
            }
        }
    }
}

#[test]
fn smallest_decode_is_black() {
    let out = finished(MartinM1::new().decode(&crafted(&solid(0, 0, 0))));
    assert!(out.data.iter().all(|b| *b == 0));
}

#[test]
fn smallest_decode_through_audio_is_black() {
    let out = partial(MartinM1::new().decode(&through_audio(&solid(0, 0, 0))));
    let worst = out.data.iter().max().unwrap();
    assert!(*worst <= 2, "brightest channel {}", worst);
}

#[test]
fn white_image_decodes_white() {
    let out = finished(MartinM1::new().decode(&crafted(&solid(255, 255, 255))));
    assert!(out.data.iter().all(|b| *b >= 253));
}

#[test]
fn white_image_through_audio_decodes_white() {
    let out = partial(MartinM1::new().decode(&through_audio(&solid(255, 255, 255))));
    // The last row is never reached; the pixels next to a separator share
    // samples with the tone change.
    for y in 0..255u32 {
        for x in 2..318u32 {
            for c in 0..3 {
                assert!(out.get_channel(x, y, c) >= 253);
            }
        }
    }
    assert!(out.data[255 * 960..].iter().all(|b| *b == 0));
}

#[test]
fn colour_bars_decode_to_three_regions() {
    check_bars(&finished(MartinM1::new().decode(&crafted(&bars()))), 256);
}

#[test]
fn colour_bars_through_audio() {
    check_bars(&partial(MartinM1::new().decode(&through_audio(&bars()))), 255);
}

#[test]
fn streaming_in_chunks_of_4096() {
    let t = through_audio(&solid(255, 255, 255));
    let once = partial(MartinM1::new().decode(&t));
    let mut m = MartinM1::new();
    let mut partials = 0;
    let mut end = 0;
    let mut last = None;
    while end < t.len() {
        end = (end + 4096).min(t.len());
        match m.decode(&t[..end]) {
            DecodeResult::Partial(img) => {
                partials += 1;
                last = Some(img);
            },
            DecodeResult::Finished(_) => panic!("finished"),
            DecodeResult::NoneFound => assert!(last.is_none()),
        }
    }
    assert!(partials > 1000);
    assert_eq!(last.unwrap().data, once.data);
}

#[test]
fn streaming_in_chunks_of_4096_finishes_on_exact_timeline() {
    let t = crafted(&solid(255, 255, 255));
    let once = finished(MartinM1::new().decode(&t));
    let mut m = MartinM1::new();
    let mut partials = 0;
    let mut end = 0;
    let mut last = None;
    while end < t.len() {
        end = (end + 4096).min(t.len());
        match m.decode(&t[..end]) {
            DecodeResult::Partial(_) => partials += 1,
            DecodeResult::Finished(img) => last = Some(img),
            DecodeResult::NoneFound => {},
        }
    }
    assert!(partials > 0);
    assert_eq!(last.unwrap().data, once.data);
}
