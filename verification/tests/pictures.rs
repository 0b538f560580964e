//! Pictures on their way out.

use std::io::Cursor;

use image::{DynamicImage, ImageFormat, RgbImage};
use zcode::text::picture::{
    encode_image, fit_dimensions, mul_div_round, pick_smallest, probe_dimensions, take_quality, take_size,
    try_process_image, Best, Candidate, ImageError, ImageMime, ProcessedImage, ResizeOptions,
    MAX_INPUT_BYTES,
};

fn process(input: &[u8]) -> Result<ProcessedImage, ImageError> {
    try_process_image(input, &ResizeOptions::default()).expect("there is room for the picture")
}

fn note(picture: &ProcessedImage) -> Option<String> {
    let scale_x = f64::from(picture.original_width) / f64::from(picture.width);
    let scale_y = f64::from(picture.original_height) / f64::from(picture.height);
    picture.dimension_note(&format!("{scale_x:.3}"), &format!("{scale_y:.3}"))
}

fn solid_png(width: u32, height: u32) -> Vec<u8> {
    let image = DynamicImage::ImageRgb8(RgbImage::from_pixel(
        width,
        height,
        image::Rgb([120, 40, 200]),
    ));
    let mut buf = Cursor::new(Vec::new());
    image
        .write_to(&mut buf, ImageFormat::Png)
        .expect("内存缓冲区写入不会失败");
    buf.into_inner()
}
fn noisy_png(width: u32, height: u32) -> Vec<u8> {
    let mut state: u32 = 0x1234_5678;
    let mut buffer = RgbImage::new(width, height);
    for pixel in buffer.pixels_mut() {
        state ^= state << 13;
        state ^= state >> 17;
        state ^= state << 5;
        let bytes = state.to_le_bytes();
        *pixel = image::Rgb([
            bytes.first().copied().unwrap_or(0),
            bytes.get(1).copied().unwrap_or(0),
            bytes.get(2).copied().unwrap_or(0),
        ]);
    }
    let image = DynamicImage::ImageRgb8(buffer);
    let mut buf = Cursor::new(Vec::new());
    image
        .write_to(&mut buf, ImageFormat::Png)
        .expect("内存缓冲区写入不会失败");
    buf.into_inner()
}
fn crc32(bytes: &[u8]) -> u32 {
    let mut crc: u32 = 0xFFFF_FFFF;
    for &byte in bytes {
        crc ^= u32::from(byte);
        for _ in 0..8 {
            let mask = 0_u32.wrapping_sub(crc & 1);
            crc = (crc >> 1) ^ (0xEDB8_8320 & mask);
        }
    }
    crc ^ 0xFFFF_FFFF
}
fn oversized_ihdr_only_png(width: u32, height: u32) -> Vec<u8> {
    let mut bytes = vec![0x89, b'P', b'N', b'G', 0x0D, 0x0A, 0x1A, 0x0A];

    let mut chunk = Vec::with_capacity(17);
    chunk.extend_from_slice(b"IHDR");
    chunk.extend_from_slice(&width.to_be_bytes());
    chunk.extend_from_slice(&height.to_be_bytes());
    chunk.push(8);
    chunk.push(6);
    chunk.push(0);
    chunk.push(0);
    chunk.push(0);

    bytes.extend_from_slice(&13_u32.to_be_bytes());
    bytes.extend_from_slice(&chunk);
    bytes.extend_from_slice(&crc32(&chunk).to_be_bytes());
    bytes.extend_from_slice(&0_u32.to_be_bytes());
    bytes.extend_from_slice(b"IDAT");
    bytes
}

#[test]
fn small_image_takes_fast_path_without_reencoding() {
    let bytes = solid_png(256, 256);
    let original = bytes.clone();
    let result = process(&bytes).expect("合法 PNG 应处理成功");

    assert!(!result.reencoded);
    assert_eq!(result.bytes, original);
    assert_eq!((result.width, result.height), (256, 256));
    assert_eq!((result.original_width, result.original_height), (256, 256));
    assert!(note(&result).is_none());
}

#[test]
fn oversized_image_is_scaled_down_to_max_dimension() {
    let bytes = noisy_png(3000, 2000);
    let result = process(&bytes).expect("合法 PNG 应处理成功");

    assert!(result.reencoded);
    assert!(result.width <= 1568 && result.height <= 1568);
    assert_eq!(result.width.max(result.height), 1568);
    assert!(result.width >= 200 && result.height >= 200);
    assert_eq!(
        (result.original_width, result.original_height),
        (3000, 2000)
    );
    assert!(note(&result).is_some());
}

#[test]
fn sub_min_dimension_image_is_upscaled_to_floor() {
    let bytes = solid_png(40, 60);
    let result = process(&bytes).expect("合法 PNG 应处理成功");

    assert!(result.reencoded);
    assert_eq!(result.width.min(result.height), 200);
    assert!(result.width >= 200 && result.height >= 200);
    assert_eq!((result.original_width, result.original_height), (40, 60));
    assert!(note(&result).is_some());
}

#[test]
fn dimension_note_is_none_when_only_bytes_shrank() {
    let bytes = noisy_png(300, 300);
    assert!(bytes.len() > ResizeOptions::default().max_bytes / 4);

    let result = process(&bytes).expect("合法 PNG 应处理成功");

    assert!(result.reencoded);
    assert_eq!((result.width, result.height), (300, 300));
    assert!(note(&result).is_none());
}

#[test]
fn oversized_input_is_rejected_before_decoding() {
    let bytes = vec![0_u8; MAX_INPUT_BYTES + 1];
    let err = process(&bytes).expect_err("超限输入应报错");
    assert!(matches!(err, ImageError::TooLarge { limit, .. } if limit == MAX_INPUT_BYTES));

    let err = probe_dimensions(&bytes).expect_err("超限输入应报错");
    assert!(matches!(err, ImageError::TooLarge { .. }));
}

#[test]
fn oversized_declared_dimensions_are_rejected_before_any_decoding() {
    let bytes = oversized_ihdr_only_png(50_000, 50_000);
    assert!(bytes.len() < 64);

    let err = process(&bytes)
        .expect_err("巨幅声明尺寸应在解码前被拒绝");
    assert!(matches!(
        err,
        ImageError::TooManyPixels {
            width: 50_000,
            height: 50_000,
            ..
        }
    ));
}

#[test]
fn unrecognized_bytes_report_unknown_format_not_silent_passthrough() {
    let junk = [0_u8, 1, 2, 3, 4, 5, 6, 7, 8, 9, 10, 11, 12, 13, 14, 15];

    let probe_err = probe_dimensions(&junk).expect_err("无法识别的字节应报错");
    assert!(matches!(probe_err, ImageError::UnknownFormat));

    let process_err = process(&junk)
        .expect_err("无法识别的字节应报错，不能静默返回原图");
    assert!(matches!(process_err, ImageError::UnknownFormat));
}

#[test]
fn probe_dimensions_matches_known_image() {
    let bytes = solid_png(123, 45);
    let (width, height, mime) = probe_dimensions(&bytes).expect("合法 PNG 应探测成功");
    assert_eq!((width, height), (123, 45));
    assert_eq!(mime, ImageMime::Png);
}

#[test]
fn mul_div_round_rounds_to_nearest_and_never_returns_zero() {
    assert_eq!(mul_div_round(10, 1, 3), 3);
    assert_eq!(mul_div_round(10, 2, 3), 7);
    assert_eq!(mul_div_round(1, 1, 1000), 1);
}

#[test]
fn sizes_keep_their_proportions_and_their_floor() {
    assert_eq!(fit_dimensions(3000, 2000, 1568, 1568, 200), (1568, 1045));
    assert_eq!(fit_dimensions(40, 60, 1568, 1568, 200), (200, 300));
    assert_eq!(fit_dimensions(300, 300, 1568, 1568, 200), (300, 300));
    // Very long: the shorter side is what counts.
    assert_eq!(fit_dimensions(10_000, 10, 1568, 1568, 200), (156_800, 200));
    assert_eq!(mul_div_round(7, 5, 0), 7);
    assert_eq!(mul_div_round(u32::MAX, u32::MAX, 1), u32::MAX);
}

#[test]
fn the_smallest_encoding_is_chosen_and_the_first_of_equals() {
    let chosen = pick_smallest(vec![
        Candidate { mime: ImageMime::Png, result: Ok(vec![0; 9]) },
        Candidate { mime: ImageMime::Jpeg, result: Ok(vec![1; 4]) },
        Candidate { mime: ImageMime::Webp, result: Ok(vec![2; 4]) },
    ]);
    assert_eq!(chosen, Ok((vec![1; 4], ImageMime::Jpeg)));
}

#[test]
fn where_all_encodings_fail_the_first_failure_is_told() {
    let failed = pick_smallest(vec![
        Candidate { mime: ImageMime::Png, result: Err("first".to_string()) },
        Candidate { mime: ImageMime::Jpeg, result: Err("second".to_string()) },
    ]);
    let err = failed.expect_err("nothing was encoded");
    assert_eq!(err, ImageError::Encode { mime: ImageMime::Png, reason: "first".to_string() });
    assert_eq!(err.to_string(), "以 Png 编码图像失败：first");
    assert_eq!(pick_smallest(Vec::new()), Err(ImageError::UnknownFormat));
}

#[test]
fn a_candidate_counts_only_where_it_is_smaller() {
    let best = || Best { bytes: vec![0; 10], mime: ImageMime::Png, width: 50, height: 40 };
    let (kept, fits) = take_quality(best(), Ok(vec![1; 12]), 20);
    assert_eq!((kept.bytes.len(), kept.mime, fits), (10, ImageMime::Png, false));
    let (kept, fits) = take_quality(best(), Ok(vec![1; 6]), 5);
    assert_eq!((kept.bytes.len(), kept.mime, fits), (6, ImageMime::Jpeg, false));
    let (kept, fits) = take_quality(best(), Err("no".to_string()), 5);
    assert_eq!((kept.bytes.len(), fits), (10, false));
    let (kept, fits) = take_size(best(), Ok((vec![1; 4], ImageMime::Webp)), 25, 20, 5);
    assert_eq!((kept.bytes.len(), kept.width, kept.height, fits), (4, 25, 20, true));
}

#[test]
fn a_broken_file_of_a_known_format_fails_to_decode() {
    let mut bytes = solid_png(64, 64);
    bytes.truncate(20);
    let err = probe_dimensions(&bytes).expect_err("the header is cut off");
    assert!(matches!(err, ImageError::Decode { .. }));
    assert!(err.to_string().starts_with("图像解码失败："));
}

#[test]
fn picture_errors_are_told_in_words() {
    assert_eq!(
        ImageError::TooLarge { bytes: 5, limit: 4 }.to_string(),
        "图像字节数 5 超过上限 4"
    );
    assert_eq!(
        ImageError::DegenerateDimensions { width: 0, height: 4 }.to_string(),
        "图像尺寸退化：0×4"
    );
    assert_eq!(
        ImageError::TooManyPixels { width: 9, height: 4, limit: 6 }.to_string(),
        "图像像素总数 9×4 超过上限 6"
    );
    assert_eq!(ImageError::UnknownFormat.to_string(), "无法识别图像格式");
}

#[test]
fn a_picture_over_the_budget_is_made_smaller() {
    let bytes = noisy_png(400, 300);
    let mut options = ResizeOptions::default();
    options.max_bytes = 20_000;
    let result = try_process_image(&bytes, &options).expect("room").expect("a valid picture");
    assert!(result.reencoded);
    assert!(result.bytes.len() < bytes.len());
    assert!(result.width >= 200 && result.height >= 200);
    let (width, height, mime) = probe_dimensions(&result.bytes).expect("a valid file");
    assert_eq!((width, height, mime), (result.width, result.height, result.mime));
}

#[test]
fn a_scaled_picture_goes_out_in_the_smallest_encoding() {
    let picture = DynamicImage::ImageRgb8(RgbImage::from_pixel(300, 240, image::Rgb([9, 9, 9])));
    let sent = encode_image(&picture, 600, 480, 300, 240, &ResizeOptions::default())
        .expect("no side is too long")
        .expect("a picture that can be encoded");
    assert_eq!((sent.width, sent.height), (300, 240));
    assert_eq!((sent.original_width, sent.original_height), (600, 480));
    assert!(sent.reencoded);
    let (width, height, mime) = probe_dimensions(&sent.bytes).expect("a valid file");
    assert_eq!((width, height, mime), (300, 240, sent.mime));
    let mut png = Cursor::new(Vec::new());
    picture.write_to(&mut png, ImageFormat::Png).expect("a file");
    assert!(sent.bytes.len() <= png.into_inner().len());
}

#[test]
fn a_picture_that_keeps_its_size_always_comes_to_the_same_file() {
    let bytes = noisy_png(300, 300);
    let first = process(&bytes).expect("a valid picture");
    let second = process(&bytes).expect("a valid picture");
    assert_eq!((first.width, first.height), (300, 300));
    assert_eq!(first.bytes, second.bytes);
}

#[test]
fn a_side_that_is_too_long_to_be_scaled_to_is_told() {
    let large = ResizeOptions {
        max_width: 4_000_000,
        max_height: 4_000_000,
        min_dimension: 1,
        ..ResizeOptions::default()
    };
    let tiny = solid_png(2, 1);
    let up = ResizeOptions { min_dimension: 1_100_000, ..large };
    assert!(try_process_image(&tiny, &up).is_none());

    let long = oversized_ihdr_only_png(2_000_000, 1);
    let passed = try_process_image(&long, &large).expect("nothing is scaled").expect("a header");
    assert!(!passed.reencoded);
    assert_eq!((passed.width, passed.height), (2_000_000, 1));
}

#[test]
fn a_long_side_is_no_hindrance_where_nothing_is_scaled_to_it() {
    let long = oversized_ihdr_only_png(2_000_000, 1);
    let result = try_process_image(&long, &ResizeOptions::default()).expect("a size to scale to");
    assert!(matches!(result, Err(ImageError::Decode { .. })));

    let line = solid_png(1_200_000, 2);
    let options = ResizeOptions { max_width: 400, max_height: 400, min_dimension: 1, ..ResizeOptions::default() };
    let result = try_process_image(&line, &options).expect("a size to scale to").expect("a valid picture");
    assert_eq!((result.width, result.height), (400, 1));

    let kept = ResizeOptions { max_width: 1_200_000, max_bytes: 4 * line.len() - 4, ..options };
    let result = try_process_image(&line, &kept).expect("nothing is scaled").expect("a valid picture");
    assert!(result.reencoded);
    assert_eq!((result.width, result.height), (1_200_000, 2));
    let none = ResizeOptions { max_bytes: 0, ..kept };
    assert!(try_process_image(&line, &none).is_none());
}

#[test]
fn a_scaled_picture_has_the_size_that_is_told() {
    let result = process(&noisy_png(2000, 1000)).expect("a valid picture");
    let (width, height, mime) = probe_dimensions(&result.bytes).expect("a valid file");
    assert_eq!((width, height, mime), (result.width, result.height, result.mime));
    assert_eq!(width, 2 * height);
}
