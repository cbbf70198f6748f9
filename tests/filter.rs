use desktop_image_filter::config::{Config, ConfigError};
use desktop_image_filter::decision::{classify, exceeds_threshold, Verdict};
use desktop_image_filter::image::{image_format, read_dimensions, Dimensions, ImageFormat};
use desktop_image_filter::threshold::Threshold;

/// A JPEG that stops after its baseline frame header.
fn jpeg_header(width: u16, height: u16) -> Vec<u8> {
    let mut b = vec![0xFF, 0xD8, 0xFF, 0xC0, 0x00, 0x11, 0x08];
    b.extend_from_slice(&height.to_be_bytes());
    b.extend_from_slice(&width.to_be_bytes());
    b.push(3);
    for id in 1..=3u8 {
        b.extend_from_slice(&[id, 0x11, 0x00]);
    }
    b
}

fn png_image(width: u32, height: u32) -> Vec<u8> {
    let mut buf = Vec::new();
    {
        let mut enc = png::Encoder::new(&mut buf, width, height);
        enc.set_color(png::ColorType::Grayscale);
        enc.set_depth(png::BitDepth::Eight);
        let mut writer = enc.write_header().unwrap();
        writer.write_image_data(&vec![0u8; (width * height) as usize]).unwrap();
    }
    buf
}

fn ratio(text: &str) -> Threshold {
    Threshold::from_decimal(text.as_bytes()).unwrap()
}

fn args(items: &[&str]) -> Vec<String> {
    items.iter().map(|s| s.to_string()).collect()
}

fn held(digits: &str, exponent: i128) -> Threshold {
    Threshold { digits: digits.as_bytes().to_vec(), exponent }
}

#[test]
fn threshold_reads_decimals() {
    assert_eq!(ratio("1.5"), held("15", -1));
    assert_eq!(ratio("2"), held("2", 0));
    assert_eq!(ratio(".75"), held("75", -2));
    assert_eq!(ratio("3."), held("3", 0));
    assert_eq!(ratio("007.50"), held("00750", -2));
    assert_eq!(ratio("0.000000000000000001"), held("0000000000000000001", -18));
    assert_eq!(ratio("11111111111111111111"), held("11111111111111111111", 0));
    assert_eq!(ratio("1.23456789012345678901"), held("123456789012345678901", -20));
}

#[test]
fn threshold_reads_signs_and_exponents() {
    assert_eq!(ratio("+1.5"), held("15", -1));
    assert_eq!(ratio("1e3"), held("1", 3));
    assert_eq!(ratio("1E0"), held("1", 0));
    assert_eq!(ratio("15e-1"), held("15", -1));
    assert_eq!(ratio("2.5E-1"), held("25", -2));
    assert_eq!(ratio("0.25e+1"), held("025", -1));
}

#[test]
fn threshold_holds_huge_exponents_at_the_cap() {
    let big = ratio("1e99999999999999999999999999999999");
    assert_eq!(big.digits, b"1".to_vec());
    assert_eq!(big.exponent, 1i128 << 100);
    let small = ratio("1e-99999999999999999999999999999999");
    assert_eq!(small.exponent, -(1i128 << 100));
}

#[test]
fn threshold_refuses_other_text() {
    for text in [
        "", ".", "abc", "1.2.3", "0", "0.0", "000", "0e5", "-1", "-1.5", "++1", "1e", "1e+", "e3",
        "1e3.5", " 1", "inf", "NaN",
    ] {
        assert_eq!(Threshold::from_decimal(text.as_bytes()), None, "{text}");
    }
}

#[test]
fn long_thresholds_compare_exactly() {
    let wide = |w: u32, h: u32, t: &str| exceeds_threshold(&Dimensions { width: w, height: h }, &ratio(t));
    assert!(!wide(1, 1, "1.00000000000000000000000001"));
    assert!(wide(2, 1, "1.00000000000000000000000001"));
    assert!(!wide(1, 3, "0.33333333333333333333333333334"));
    assert!(wide(1, 3, "0.33333333333333333333333333333"));
    assert!(!wide(u32::MAX, 1, "11111111111111111111"));
    assert!(wide(u32::MAX, 1, "4294967294.99999999999999999999999"));
    assert!(!wide(u32::MAX, 1, "4294967295.00000000000000000000001"));
    assert!(!wide(u32::MAX, 1, "1e10"));
    assert!(!wide(u32::MAX, 1, "1e99999999999999999999999999999999"));
    assert!(wide(1, u32::MAX, "1e-40"));
    assert!(!wide(0, 1, "1e-40"));
    assert!(wide(1, u32::MAX, "1e-99999999999999999999999999999999"));
    assert!(wide(3, 1, "2.999999999999999999999999999999999999999999999999e0"));
    assert!(!wide(3, 1, "30000000000000000000000000000000000000000e-40"));
}

#[test]
fn config_from_arguments() {
    let c = Config::new(&args(&["prog", "src", "dst", "1.5"])).unwrap();
    assert_eq!(c.origin_dir, "src");
    assert_eq!(c.destination_dir, "dst");
    assert_eq!(c.ratio, held("15", -1));
    let extra = Config::new(&args(&["prog", "a", "b", "2", "more"])).unwrap();
    assert_eq!(extra.ratio, held("2", 0));
}

#[test]
fn config_errors() {
    assert_eq!(
        Config::new(&args(&["prog", "src", "dst"])).err(),
        Some(ConfigError::NotEnoughArguments)
    );
    assert_eq!(Config::new(&args(&[])).err(), Some(ConfigError::NotEnoughArguments));
    assert_eq!(
        Config::new(&args(&["prog", "src", "dst", "wide"])).err(),
        Some(ConfigError::InvalidRatio)
    );
    assert_eq!(
        Config::new(&args(&["prog", "", "dst", "1.5"])).err(),
        Some(ConfigError::EmptyPath)
    );
    assert_eq!(
        Config::new(&args(&["prog", "src", "", "wide"])).err(),
        Some(ConfigError::EmptyPath)
    );
    assert_eq!(
        Config::new(&args(&["prog", "src", "dst", "1e3"])).unwrap().ratio,
        held("1", 3)
    );
    assert_eq!(ConfigError::NotEnoughArguments.message(), "Not enough arguments");
    assert_eq!(ConfigError::EmptyPath.message(), "Empty directory path");
    assert_eq!(ConfigError::InvalidRatio.message(), "Invalid ratio");
}

#[test]
fn candidates_by_extension() {
    assert_eq!(image_format(b"a.jpg"), Some(ImageFormat::Jpeg));
    assert_eq!(image_format(b"A.JPG"), Some(ImageFormat::Jpeg));
    assert_eq!(image_format(b"b.JpEg"), Some(ImageFormat::Jpeg));
    assert_eq!(image_format(b"c.png"), Some(ImageFormat::Png));
    assert_eq!(image_format(b"x.tar.PNG"), Some(ImageFormat::Png));
}

#[test]
fn non_candidates_by_extension() {
    for name in ["c.txt", ".png", "png", "x.png.txt", "x.", "", "a.jp", "a.jpgx", "a.gif"] {
        assert_eq!(image_format(name.as_bytes()), None, "{name}");
    }
}

#[test]
fn dimensions_from_headers() {
    assert_eq!(
        read_dimensions(ImageFormat::Jpeg, &jpeg_header(4000, 2000)),
        Some(Dimensions { width: 4000, height: 2000 })
    );
    assert_eq!(
        read_dimensions(ImageFormat::Png, &png_image(30, 20)),
        Some(Dimensions { width: 30, height: 20 })
    );
}

#[test]
fn unreadable_headers() {
    let png = png_image(30, 20);
    let jpeg = jpeg_header(40, 20);
    assert_eq!(read_dimensions(ImageFormat::Jpeg, &png), None);
    assert_eq!(read_dimensions(ImageFormat::Png, &jpeg), None);
    assert_eq!(read_dimensions(ImageFormat::Jpeg, &[]), None);
    assert_eq!(read_dimensions(ImageFormat::Png, &[]), None);
    assert_eq!(read_dimensions(ImageFormat::Jpeg, &jpeg[..9]), None);
    assert_eq!(read_dimensions(ImageFormat::Png, &png[..20]), None);
    assert_eq!(read_dimensions(ImageFormat::Jpeg, &jpeg_header(40, 0)), None);
}

#[test]
fn ratio_comparison_is_strict_and_exact() {
    let t = ratio("1.5");
    assert!(exceeds_threshold(&Dimensions { width: 4000, height: 2000 }, &t));
    assert!(!exceeds_threshold(&Dimensions { width: 1000, height: 1000 }, &t));
    assert!(!exceeds_threshold(&Dimensions { width: 3, height: 2 }, &t));
    assert!(exceeds_threshold(&Dimensions { width: 3_000_001, height: 2_000_000 }, &t));
    assert!(!exceeds_threshold(&Dimensions { width: 5, height: 0 }, &t));
    assert!(!exceeds_threshold(&Dimensions { width: u32::MAX, height: 1 }, &held("18446744073709551615", 0)));
    assert!(exceeds_threshold(&Dimensions { width: 1, height: u32::MAX }, &held("1", -19)));
    assert!(!exceeds_threshold(&Dimensions { width: u32::MAX, height: 1 }, &held("4294967295", 0)));
    assert!(exceeds_threshold(&Dimensions { width: u32::MAX, height: 1 }, &held("42949672949", -1)));
}

#[test]
fn moved_only_when_decoded_and_wider() {
    let t = ratio("1.5");
    assert_eq!(
        classify(ImageFormat::Jpeg, &jpeg_header(4000, 2000), &t),
        Verdict::Move(Dimensions { width: 4000, height: 2000 })
    );
    assert_eq!(
        classify(ImageFormat::Jpeg, &jpeg_header(300, 200), &t),
        Verdict::Keep(Dimensions { width: 300, height: 200 })
    );
    assert_eq!(
        classify(ImageFormat::Png, &jpeg_header(4000, 2000), &t),
        Verdict::Undecodable
    );
}

#[test]
fn corrupt_jpeg_is_left_alone() {
    let t = ratio("1.5");
    assert_eq!(classify(ImageFormat::Jpeg, &[], &t), Verdict::Undecodable);
    let truncated = jpeg_header(4000, 2000);
    assert_eq!(classify(ImageFormat::Jpeg, &truncated[..12], &t), Verdict::Undecodable);
}

/// The names that a pass over `files` moves, with the threshold given.
fn moved_names(files: &[(&str, Vec<u8>)], t: &Threshold) -> (Vec<String>, usize) {
    let mut moved = Vec::new();
    let mut processed = 0;
    for (name, contents) in files {
        if let Some(format) = image_format(name.as_bytes()) {
            processed += 1;
            if let Verdict::Move(_) = classify(format, contents, t) {
                moved.push(name.to_string());
            }
        }
    }
    (moved, processed)
}

#[test]
fn wide_jpeg_moves_square_png_and_text_stay() {
    let t = ratio("1.5");
    let files = vec![
        ("a.jpg", jpeg_header(4000, 2000)),
        ("b.png", png_image(1000, 1000)),
        ("c.txt", b"4000x2000".to_vec()),
    ];
    let (moved, processed) = moved_names(&files, &t);
    assert_eq!(moved, vec!["a.jpg".to_string()]);
    assert_eq!(processed, 2);
}

#[test]
fn second_pass_moves_nothing() {
    let t = ratio("1.2");
    let files = vec![
        ("wide.jpeg", jpeg_header(1920, 1080)),
        ("tall.JPG", jpeg_header(1080, 1920)),
        ("pano.png", png_image(60, 10)),
        ("square.png", png_image(10, 10)),
        ("broken.jpg", vec![0xFF, 0xD8, 0xFF]),
        ("notes.txt", vec![]),
    ];
    let (moved, _) = moved_names(&files, &t);
    assert_eq!(moved, vec!["wide.jpeg".to_string(), "pano.png".to_string()]);
    let left: Vec<(&str, Vec<u8>)> =
        files.into_iter().filter(|(n, _)| !moved.iter().any(|m| m == n)).collect();
    let (again, _) = moved_names(&left, &t);
    assert!(again.is_empty());
}

#[test]
fn corrupt_file_leaves_other_decisions_alone() {
    let t = ratio("1.5");
    let clean = vec![
        ("a.jpg", jpeg_header(4000, 2000)),
        ("b.png", png_image(40, 10)),
        ("c.png", png_image(10, 10)),
    ];
    let mut with_corrupt = clean.clone();
    with_corrupt.insert(1, ("broken.jpg", Vec::new()));
    with_corrupt.insert(3, ("cut.JPEG", jpeg_header(4000, 2000)[..10].to_vec()));
    assert_eq!(moved_names(&clean, &t).0, moved_names(&with_corrupt, &t).0);
    assert_eq!(moved_names(&clean, &t).0, vec!["a.jpg".to_string(), "b.png".to_string()]);
}
