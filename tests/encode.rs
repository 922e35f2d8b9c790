use rsstv::common::{Component, Signal};
use rsstv::martinm1::MartinM1;
use rsstv::raster::Raster;

const ROW_COMPONENTS: usize = 2 + 3 * 321;
const HEADER_COMPONENTS: usize = 12;

fn solid(r: u8, g: u8, b: u8) -> Raster {
    let mut data = Vec::new();
    for _ in 0..320 * 256 {
        data.extend_from_slice(&[r, g, b]);
    }
    Raster::from_rgb(320, 256, data).unwrap()
}

/// Index of the pixel tone of column `j`, row `i`, sent in slot `slot`.
fn pixel_component(i: usize, slot: usize, j: usize) -> usize {
    HEADER_COMPONENTS + i * ROW_COMPONENTS + 2 + slot * 321 + j
}

fn encode(img: &Raster) -> Signal {
    MartinM1::new().encode(img)
}

#[test]
fn black_image_sends_black_pixels() {
    let s = encode(&solid(0, 0, 0));
    let c = s.components();
    assert_eq!(c.len(), HEADER_COMPONENTS + 256 * ROW_COMPONENTS + 1);
    let pixels: Vec<&Component> = c.iter().filter(|x| x.len_ns == 457_600).collect();
    assert_eq!(pixels.len(), 256 * 3 * 320);
    assert!(pixels.iter().all(|x| x.freq == 1500));
}

#[test]
fn black_image_sample_count() {
    let s = encode(&solid(0, 0, 0));
    // Each component truncates on its own: 38808 samples of header, 19514 per
    // row, 4410 of trailer.
    assert_eq!(s.to_phases().len(), 38_808 + 256 * 19_514 + 4_410);
    assert_eq!(s.to_phases().len(), 5_038_802);
}

#[test]
fn transmission_layout() {
    let s = encode(&solid(10, 20, 30));
    let c = s.components();
    for i in 0..256 {
        let base = HEADER_COMPONENTS + i * ROW_COMPONENTS;
        assert_eq!(c[base], Component { freq: 1200, len_ns: 4_862_000 });
        assert_eq!(c[base + 1], Component { freq: 1500, len_ns: 572_000 });
        for slot in 0..3 {
            assert_eq!(c[base + 2 + slot * 321 + 320], Component { freq: 1500, len_ns: 572_000 });
        }
    }
    assert_eq!(*c.last().unwrap(), Component { freq: 0, len_ns: 100_000_000 });
}

#[test]
fn header_and_vis_code_are_fixed() {
    let expected = vec![
        Component { freq: 1900, len_ns: 300_000_000 },
        Component { freq: 1200, len_ns: 10_000_000 },
        Component { freq: 1900, len_ns: 300_000_000 },
        Component { freq: 1200, len_ns: 30_000_000 },
        Component { freq: 1100, len_ns: 30_000_000 },
        Component { freq: 1300, len_ns: 30_000_000 },
        Component { freq: 1100, len_ns: 30_000_000 },
        Component { freq: 1100, len_ns: 30_000_000 },
        Component { freq: 1300, len_ns: 30_000_000 },
        Component { freq: 1300, len_ns: 30_000_000 },
        Component { freq: 1100, len_ns: 30_000_000 },
        Component { freq: 1200, len_ns: 30_000_000 },
    ];
    for img in [solid(0, 0, 0), solid(255, 255, 255), solid(1, 200, 77)] {
        let s = encode(&img);
        assert_eq!(s.components()[..12].to_vec(), expected);
    }
}

#[test]
fn white_image_sends_2300_hz() {
    let s = encode(&solid(255, 255, 255));
    for i in [0, 128, 255] {
        for slot in 0..3 {
            for j in [0, 160, 319] {
                assert_eq!(s.components()[pixel_component(i, slot, j)].freq, 2300);
            }
        }
    }
}

#[test]
fn pixel_frequency_is_linear_and_truncated() {
    // 1500 + floor(v * 800 / 255)
    for (v, f) in [(0u8, 1500usize), (1, 1503), (51, 1660), (128, 1901), (153, 1980), (254, 2296), (255, 2300)] {
        let s = encode(&solid(v, v, v));
        assert_eq!(s.components()[pixel_component(3, 1, 7)].freq, f);
    }
}

#[test]
fn channels_go_green_blue_red() {
    let s = encode(&solid(255, 0, 128));
    let c = s.components();
    assert_eq!(c[pixel_component(0, 0, 0)].freq, 1500); // green
    assert_eq!(c[pixel_component(0, 1, 0)].freq, 1901); // blue
    assert_eq!(c[pixel_component(0, 2, 0)].freq, 2300); // red
}

#[test]
fn colour_bars_tones() {
    let mut data = Vec::new();
    for _ in 0..256 {
        for j in 0..320 {
            let px = if j < 107 {
                [255, 0, 0]
            } else if j < 214 {
                [0, 255, 0]
            } else {
                [0, 0, 255]
            };
            data.extend_from_slice(&px);
        }
    }
    let s = encode(&Raster::from_rgb(320, 256, data).unwrap());
    let c = s.components();
    // Slots carry green, blue, red.
    assert_eq!(c[pixel_component(9, 2, 50)].freq, 2300);
    assert_eq!(c[pixel_component(9, 0, 50)].freq, 1500);
    assert_eq!(c[pixel_component(9, 0, 150)].freq, 2300);
    assert_eq!(c[pixel_component(9, 2, 150)].freq, 1500);
    assert_eq!(c[pixel_component(9, 1, 300)].freq, 2300);
    assert_eq!(c[pixel_component(9, 0, 300)].freq, 1500);
}

#[test]
fn small_image_is_resized_nearest() {
    // A 2 by 1 image: red on the left, blue on the right.
    let img = Raster::from_rgb(2, 1, vec![255, 0, 0, 0, 0, 255]).unwrap();
    let s = encode(&img);
    let c = s.components();
    assert_eq!(c.len(), HEADER_COMPONENTS + 256 * ROW_COMPONENTS + 1);
    for i in [0, 100, 255] {
        assert_eq!(c[pixel_component(i, 2, 0)].freq, 2300);
        assert_eq!(c[pixel_component(i, 2, 319)].freq, 1500);
        assert_eq!(c[pixel_component(i, 1, 0)].freq, 1500);
        assert_eq!(c[pixel_component(i, 1, 319)].freq, 2300);
        assert_eq!(c[pixel_component(i, 0, 100)].freq, 1500);
    }
}

#[test]
fn large_image_is_resized_to_320_by_256() {
    let img = Raster::from_rgb(640, 512, vec![255; 640 * 512 * 3]).unwrap();
    let s = encode(&img);
    assert_eq!(s.components().len(), HEADER_COMPONENTS + 256 * ROW_COMPONENTS + 1);
    assert_eq!(s.components()[pixel_component(255, 2, 319)].freq, 2300);
}

#[test]
fn encode_pixels_matches_encode_at_full_size() {
    let data: Vec<u8> = (0..320 * 256 * 3).map(|i| (i * 7 % 256) as u8).collect();
    let img = Raster::from_rgb(320, 256, data.clone()).unwrap();
    assert_eq!(encode(&img).components(), MartinM1::encode_pixels(&data).components());
}

#[test]
fn encoding_is_deterministic() {
    let data: Vec<u8> = (0..320 * 256 * 3).map(|i| (i * 13 % 251) as u8).collect();
    let img = Raster::from_rgb(320, 256, data).unwrap();
    let a = encode(&img).to_phases();
    let b = encode(&img).to_phases();
    assert_eq!(a, b);
}
