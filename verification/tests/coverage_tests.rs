use rustweek_anims::coverage::{alpha_shade, coverage_alpha, SAMPLES};

#[test]
fn coverage_alpha_ends() {
    assert_eq!(coverage_alpha(0), 255);
    assert_eq!(coverage_alpha(SAMPLES), 0);
    assert_eq!(coverage_alpha(1), 239);
    assert_eq!(coverage_alpha(8), 128);
}

#[test]
fn coverage_alpha_matches_float_area() {
    for covered in 0..=SAMPLES {
        let mut area = 255.0f64;
        for _ in 0..covered {
            area -= 255.0 / 16.0;
        }
        assert_eq!(coverage_alpha(covered), area.round() as u8);
    }
}

#[test]
fn coverage_alpha_decreases() {
    for c in 0..SAMPLES {
        assert!(coverage_alpha(c + 1) < coverage_alpha(c));
    }
}

#[test]
fn shades_are_green_greys() {
    assert_eq!(alpha_shade(255), (255, 254, 255));
    assert_eq!(alpha_shade(0), (0, 127, 0));
    assert_eq!(alpha_shade(128), (128, 191, 128));
}
