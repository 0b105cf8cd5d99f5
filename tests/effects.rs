use image_effects::effects::{
    apply_effect, edge_detect, effect_from_lowercase, flood_fill, grayscale, invert_color,
    is_supported_effect, Effect,
};
use image_effects::parser::{Args, ArgsError};
use image_effects::utils::{get_pixel_vec, EffectError, Raster, Rgba, RgbaPixel};

fn px(r: u8, g: u8, b: u8, a: u8) -> Rgba {
    Rgba { r, g, b, a }
}

fn raster(width: u32, height: u32, pixels: Vec<Rgba>) -> Raster {
    Raster::from_pixels(width, height, pixels).unwrap()
}

fn sample_raster() -> Raster {
    let mut pixels = Vec::new();
    for i in 0..12u32 {
        pixels.push(px((i * 20) as u8, (255 - i * 7) as u8, (i * i) as u8, (100 + i) as u8));
    }
    raster(4, 3, pixels)
}

#[test]
fn grayscale_averages_channels() {
    let mut img = raster(2, 1, vec![px(10, 20, 31, 7), px(255, 255, 254, 200)]);
    grayscale(&mut img);
    assert_eq!(img.pixels, vec![px(20, 20, 20, 7), px(254, 254, 254, 200)]);
}

#[test]
fn grayscale_twice_equals_once() {
    let mut once = sample_raster();
    grayscale(&mut once);
    let mut twice = sample_raster();
    grayscale(&mut twice);
    grayscale(&mut twice);
    assert_eq!(once.pixels, twice.pixels);
}

#[test]
fn grayscale_has_equal_channels_and_keeps_alpha() {
    let original = sample_raster();
    let mut img = sample_raster();
    grayscale(&mut img);
    for (p, q) in img.pixels.iter().zip(original.pixels.iter()) {
        assert_eq!(p.r, p.g);
        assert_eq!(p.g, p.b);
        assert_eq!(p.a, q.a);
    }
}

#[test]
fn invert_color_exact_values() {
    let mut img = raster(1, 2, vec![px(0, 100, 255, 9), px(1, 2, 3, 4)]);
    invert_color(&mut img);
    assert_eq!(img.pixels, vec![px(255, 155, 0, 9), px(254, 253, 252, 4)]);
}

#[test]
fn invert_color_twice_restores() {
    let mut img = sample_raster();
    invert_color(&mut img);
    assert_ne!(img.pixels, sample_raster().pixels);
    invert_color(&mut img);
    assert_eq!(img.pixels, sample_raster().pixels);
}

#[test]
fn edge_detect_keeps_border_and_greys_interior() {
    let mut gray_input = sample_raster();
    grayscale(&mut gray_input);
    let mut img = sample_raster();
    edge_detect(&mut img);
    for row in 0..4u32 {
        for col in 0..3u32 {
            let p = img.get_pixel(row, col).unwrap();
            if row == 0 || col == 0 || row == 3 || col == 2 {
                assert_eq!(p, gray_input.get_pixel(row, col).unwrap());
            } else {
                assert_eq!(p.r, p.g);
                assert_eq!(p.g, p.b);
            }
        }
    }
}

#[test]
fn edge_detect_uniform_interior_is_zero() {
    let mut img = Raster::new(3, 3, px(90, 90, 90, 255)).unwrap();
    edge_detect(&mut img);
    assert_eq!(img.get_pixel(1, 1), Ok(px(0, 0, 0, 255)));
    assert_eq!(img.get_pixel(0, 0), Ok(px(90, 90, 90, 255)));
}

#[test]
fn edge_detect_vertical_step() {
    // Rows 0 and 1 dark, row 2 bright: gx = -400, gy = 0, so the magnitude is capped at 255.
    let d = px(0, 0, 0, 1);
    let b = px(100, 100, 100, 1);
    let mut img = raster(3, 3, vec![d, d, d, d, d, d, b, b, b]);
    edge_detect(&mut img);
    assert_eq!(img.get_pixel(1, 1), Ok(px(255, 255, 255, 1)));
}

#[test]
fn edge_detect_small_gradient() {
    // Only the pixel at (2, 2) is bright, with luminance 10: gx = -10, gy = 10,
    // magnitude is the floor of the square root of 200, which is 14.
    let d = px(0, 0, 0, 5);
    let b = px(10, 10, 10, 5);
    let mut img = raster(3, 3, vec![d, d, d, d, d, d, d, d, b]);
    edge_detect(&mut img);
    assert_eq!(img.get_pixel(1, 1), Ok(px(14, 14, 14, 5)));
}

#[test]
fn flood_fill_uniform_three_by_three() {
    let x = px(255, 105, 180, 0);
    let mut img = Raster::new(3, 3, px(1, 2, 3, 4)).unwrap();
    assert_eq!(flood_fill(&mut img, 1, 1, x), Ok(()));
    assert!(img.pixels.iter().all(|p| *p == x));
}

#[test]
fn flood_fill_stops_at_boundary() {
    let a = px(10, 10, 10, 255);
    let wall = px(0, 0, 0, 255);
    let x = px(200, 0, 0, 255);
    // Row 2 is a wall between rows 0-1 and rows 3-4.
    let mut pixels = Vec::new();
    for row in 0..5u32 {
        for _ in 0..3u32 {
            pixels.push(if row == 2 { wall } else { a });
        }
    }
    let mut img = raster(5, 3, pixels);
    assert_eq!(flood_fill(&mut img, 0, 0, x), Ok(()));
    for row in 0..5u32 {
        for col in 0..3u32 {
            let expected = if row < 2 { x } else if row == 2 { wall } else { a };
            assert_eq!(img.get_pixel(row, col), Ok(expected));
        }
    }
}

#[test]
fn flood_fill_follows_diagonals() {
    let a = px(1, 1, 1, 1);
    let o = px(9, 9, 9, 9);
    let x = px(5, 5, 5, 5);
    let mut img = raster(3, 3, vec![a, o, o, o, a, o, o, o, a]);
    assert_eq!(flood_fill(&mut img, 0, 0, x), Ok(()));
    assert_eq!(img.pixels, vec![x, o, o, o, x, o, o, o, x]);
}

#[test]
fn flood_fill_out_of_bounds_changes_nothing() {
    let mut img = sample_raster();
    let x = px(0, 0, 0, 0);
    assert_eq!(flood_fill(&mut img, 4, 0, x), Err(EffectError::OutOfBounds));
    assert_eq!(flood_fill(&mut img, 0, 3, x), Err(EffectError::OutOfBounds));
    assert_eq!(flood_fill(&mut img, -1, 0, x), Err(EffectError::OutOfBounds));
    assert_eq!(img.pixels, sample_raster().pixels);
}

#[test]
fn one_by_one_raster_every_effect() {
    let p = px(30, 60, 90, 120);
    for name in ["grayscale", "edgedetect", "invertcolor", "floodfill"] {
        let mut img = Raster::new(1, 1, p).unwrap();
        assert_eq!(apply_effect(&mut img, name, 0, 0, px(1, 1, 1, 1)), Ok(()));
        assert_eq!(img.width, 1);
        assert_eq!(img.height, 1);
        assert_eq!(img.pixels.len(), 1);
    }
}

#[test]
fn unsupported_effect_is_refused_before_mutation() {
    let mut img = sample_raster();
    assert_eq!(
        apply_effect(&mut img, "blur", 0, 0, px(0, 0, 0, 0)),
        Err(EffectError::UnsupportedEffect)
    );
    assert_eq!(img.pixels, sample_raster().pixels);
}

#[test]
fn apply_effect_ignores_case() {
    let mut img = sample_raster();
    assert_eq!(apply_effect(&mut img, "InvertColor", 0, 0, px(0, 0, 0, 0)), Ok(()));
    let mut expected = sample_raster();
    invert_color(&mut expected);
    assert_eq!(img.pixels, expected.pixels);
}

#[test]
fn supported_effect_names() {
    assert!(is_supported_effect("grayscale"));
    assert!(is_supported_effect("GrayScale"));
    assert!(is_supported_effect("EDGEDETECT"));
    assert!(is_supported_effect("invertColor"));
    assert!(is_supported_effect("FloodFill"));
    assert!(!is_supported_effect("blur"));
    assert!(!is_supported_effect(""));
    assert!(!is_supported_effect("grayscale "));
}

#[test]
fn effect_from_lowercase_is_exact() {
    assert_eq!(effect_from_lowercase("floodfill"), Some(Effect::FloodFill));
    assert_eq!(effect_from_lowercase("edgedetect"), Some(Effect::EdgeDetect));
    assert_eq!(effect_from_lowercase("FloodFill"), None);
}

#[test]
fn get_and_put_pixel_bounds() {
    let mut img = Raster::new(2, 3, px(0, 0, 0, 0)).unwrap();
    assert_eq!(img.put_pixel(1, 2, px(7, 7, 7, 7)), Ok(()));
    assert_eq!(img.get_pixel(1, 2), Ok(px(7, 7, 7, 7)));
    assert_eq!(img.pixels[5], px(7, 7, 7, 7));
    assert_eq!(img.get_pixel(2, 0), Err(EffectError::OutOfBounds));
    assert_eq!(img.get_pixel(0, 3), Err(EffectError::OutOfBounds));
    assert_eq!(img.put_pixel(0, 3, px(1, 1, 1, 1)), Err(EffectError::OutOfBounds));
}

#[test]
fn pixel_vec_is_row_major() {
    let img = sample_raster();
    let samples = get_pixel_vec(&img);
    assert_eq!(samples.len(), 12);
    assert_eq!(samples[0], RgbaPixel::new(0, 0, img.pixels[0]));
    assert_eq!(samples[4], RgbaPixel::new(1, 1, img.pixels[4]));
    assert_eq!(samples[11], RgbaPixel::new(3, 2, img.pixels[11]));
}

#[test]
fn from_pixels_checks_length() {
    assert!(Raster::from_pixels(2, 2, vec![px(0, 0, 0, 0); 3]).is_none());
    assert!(Raster::from_pixels(2, 2, vec![px(0, 0, 0, 0); 4]).is_some());
}

#[test]
fn validate_reports_each_error() {
    let args = Args {
        src_path: "in.png".to_string(),
        dst_path: "out.png".to_string(),
        effect: "Grayscale".to_string(),
    };
    assert_eq!(args.validate(true, true), Ok(()));
    assert_eq!(args.validate(false, true), Err(ArgsError::MissingSource));
    assert_eq!(args.validate(true, false), Err(ArgsError::InvalidDestination));
    let bad = Args {
        src_path: "in.png".to_string(),
        dst_path: "out.png".to_string(),
        effect: "sharpen".to_string(),
    };
    assert_eq!(bad.validate(true, true), Err(ArgsError::UnsupportedEffect));
}
