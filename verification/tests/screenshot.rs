use gemini_assistant::screenshot::{
    capture, encode_frame, frame_path, needs_shrinking, take_frame, to_jpeg, FrameError, Mode,
};

fn png_of(w: u32, h: u32) -> Vec<u8> {
    let img = image::RgbImage::from_fn(w, h, |x, y| image::Rgb([(x % 256) as u8, (y % 256) as u8, 128]));
    let mut out = Vec::new();
    image::DynamicImage::ImageRgb8(img)
        .write_to(&mut std::io::Cursor::new(&mut out), image::ImageFormat::Png)
        .unwrap();
    out
}

#[test]
fn downscales_large_captures_to_max_edge() {
    let jpeg = to_jpeg(&png_of(2560, 1440), 1024, 80).unwrap();
    let decoded = image::load_from_memory(&jpeg).unwrap();
    assert_eq!(decoded.width(), 1024, "longest edge should be capped");
    assert_eq!(decoded.height(), 576, "aspect ratio should be preserved");
}

#[test]
fn leaves_small_captures_alone() {
    let jpeg = to_jpeg(&png_of(300, 200), 1024, 80).unwrap();
    let decoded = image::load_from_memory(&jpeg).unwrap();
    assert_eq!((decoded.width(), decoded.height()), (300, 200));
}

#[test]
fn output_is_a_compressed_jpeg() {
    let jpeg = to_jpeg(&png_of(2560, 1440), 1024, 80).unwrap();
    assert_eq!(&jpeg[..2], &[0xFF, 0xD8], "JPEG SOI marker");

    let decoded = image::load_from_memory(&jpeg).unwrap();
    let raw_rgb_bytes = (decoded.width() * decoded.height() * 3) as usize;
    assert!(
        jpeg.len() < raw_rgb_bytes,
        "JPEG ({}) should be smaller than raw RGB ({raw_rgb_bytes})",
        jpeg.len()
    );
}

#[test]
fn take_frame_consumes_so_a_frame_is_never_sent_twice() {
    let mut parked = Some(b"fake-jpeg".to_vec());
    assert_eq!(take_frame(&mut parked).as_deref(), Some(&b"fake-jpeg"[..]));
    assert_eq!(take_frame(&mut parked), None, "second take must find nothing");
}

#[test]
fn take_frame_is_none_when_absent() {
    assert_eq!(take_frame(&mut None), None);
    assert_eq!(take_frame(&mut Some(Vec::new())), None);
}

#[test]
fn odd_sizes_are_fitted_to_the_pixel() {
    for (w, h, edge, fitted) in [
        (1000u32, 333u32, 100u32, (100u32, 33u32)),
        (333, 1000, 100, (33, 100)),
        (1001, 999, 500, (500, 499)),
        (1920, 1, 64, (64, 1)),
        (7, 5, 1, (1, 1)),
        (5, 5, 0, (1, 1)),
    ] {
        let jpeg = to_jpeg(&png_of(w, h), edge, 80).unwrap();
        let decoded = image::load_from_memory(&jpeg).unwrap();
        assert_eq!((decoded.width(), decoded.height()), fitted, "{w}x{h} to {edge}");
    }
}

#[test]
fn quality_reaches_the_encoder() {
    let png = png_of(300, 200);
    assert!(to_jpeg(&png, 1024, 10).unwrap().len() < to_jpeg(&png, 1024, 95).unwrap().len());
}

#[test]
fn a_picture_that_fits_is_sent_as_it_is() {
    let png = png_of(64, 48);
    let rgb = image::load_from_memory(&png).unwrap().to_rgb8();
    let mut expected: Vec<u8> = Vec::new();
    image::codecs::jpeg::JpegEncoder::new_with_quality(&mut expected, 77)
        .encode(&rgb, 64, 48, image::ExtendedColorType::Rgb8)
        .unwrap();
    assert_eq!(to_jpeg(&png, 64, 77).unwrap(), expected);
}

#[test]
fn a_frame_is_the_picture_in_its_own_size() {
    let picture = image::load_from_memory(&png_of(40, 30)).unwrap();
    let mut expected: Vec<u8> = Vec::new();
    image::codecs::jpeg::JpegEncoder::new_with_quality(&mut expected, 60)
        .encode(&picture.to_rgb8(), 40, 30, image::ExtendedColorType::Rgb8)
        .unwrap();
    assert_eq!(encode_frame(&picture, 60), Ok(expected));

    let long = image::DynamicImage::ImageRgb8(image::RgbImage::new(65_536, 1));
    assert_eq!(encode_frame(&long, 60), Err(FrameError::Encoding));
    let empty = image::DynamicImage::ImageRgb8(image::RgbImage::new(0, 7));
    assert_eq!(encode_frame(&empty, 60), Err(FrameError::Encoding));
}

#[test]
fn a_jpeg_is_decoded_and_encoded_anew() {
    let jpeg = to_jpeg(&png_of(60, 40), 100, 90).unwrap();
    let picture = image::load_from_memory(&jpeg).unwrap();
    assert_eq!(to_jpeg(&jpeg, 100, 50), encode_frame(&picture, 50));
    let small = picture.resize(30, 30, image::imageops::FilterType::Lanczos3);
    assert_eq!(to_jpeg(&jpeg, 30, 50), encode_frame(&small, 50));
}

#[test]
fn what_lies_behind_the_pixels_is_not_sent() {
    let pixels: Vec<u8> = (0..12 * 10 * 3).map(|i| (i % 251) as u8).collect();
    let mut longer = pixels.clone();
    longer.extend([9; 100]);
    let exact = image::RgbImage::from_raw(12, 10, pixels).unwrap();
    let padded = image::RgbImage::from_raw(12, 10, longer).unwrap();
    assert_eq!(
        encode_frame(&image::DynamicImage::ImageRgb8(padded), 80),
        encode_frame(&image::DynamicImage::ImageRgb8(exact), 80)
    );
}

#[test]
fn a_shrunk_picture_still_shows_what_it_showed() {
    let left_red = image::RgbImage::from_fn(400, 200, |x, _| image::Rgb(if x < 200 { [220, 10, 10] } else { [10, 10, 220] }));
    let mut png = Vec::new();
    image::DynamicImage::ImageRgb8(left_red)
        .write_to(&mut std::io::Cursor::new(&mut png), image::ImageFormat::Png)
        .unwrap();
    let sent = capture(true, Some(png), 100, 90).unwrap().unwrap();
    assert_eq!(&sent[..2], &[0xFF, 0xD8]);
    let shown = image::load_from_memory(&sent).unwrap().to_rgb8();
    assert_eq!(shown.dimensions(), (100, 50));
    assert!(shown.get_pixel(20, 25)[0] > 180 && shown.get_pixel(20, 25)[2] < 60);
    assert!(shown.get_pixel(80, 25)[2] > 180 && shown.get_pixel(80, 25)[0] < 60);
}

#[test]
fn what_is_no_picture_is_refused() {
    assert_eq!(to_jpeg(b"not a picture", 1024, 80), Err(FrameError::Decoding));
    assert_eq!(to_jpeg(b"", 1024, 80), Err(FrameError::Decoding));
    assert_eq!(FrameError::Decoding.message(), "decoding screenshot");
}

#[test]
fn a_picture_too_long_for_jpeg_is_refused() {
    assert_eq!(to_jpeg(&png_of(65_536, 1), 100_000, 80), Err(FrameError::Encoding));
    assert_eq!(FrameError::Encoding.message(), "encoding JPEG");
    assert!(to_jpeg(&png_of(65_536, 1), 1024, 80).is_ok());
}

#[test]
fn only_what_is_too_large_is_shrunk() {
    assert!(!needs_shrinking(1024, 1024, 1024));
    assert!(needs_shrinking(1025, 1, 1024));
    assert!(needs_shrinking(1, 1025, 1024));
}

#[test]
fn a_cancelled_capture_is_no_error() {
    let png = png_of(20, 10);
    assert_eq!(capture(false, Some(png.clone()), 1024, 80), Ok(None));
    assert_eq!(capture(true, None, 1024, 80), Ok(None));
    assert_eq!(capture(true, Some(Vec::new()), 1024, 80), Ok(None));
    assert_eq!(capture(true, Some(b"junk".to_vec()), 1024, 80), Err(FrameError::Decoding));
    assert_eq!(capture(true, Some(png.clone()), 1024, 80), Ok(Some(to_jpeg(&png, 1024, 80).unwrap())));
}

#[test]
fn spectacle_is_told_what_to_capture() {
    assert_eq!(
        Mode::Region.spectacle_args(),
        vec!["--region", "--background", "--nonotify", "--no-decoration", "--output"]
    );
    assert_eq!(Mode::Window.spectacle_flag(), "--activewindow");
    assert_eq!(Mode::Full.spectacle_flag(), "--fullscreen");
    assert_eq!(Mode::from_options(false, false), Mode::Region);
    assert_eq!(Mode::from_options(true, false), Mode::Window);
    assert_eq!(Mode::from_options(false, true), Mode::Full);
}

#[test]
fn a_frame_is_parked_in_the_runtime_directory() {
    assert_eq!(frame_path(Some("/run/user/1000")), "/run/user/1000/gemini-assistant-frame.jpg");
    assert_eq!(frame_path(None), "/tmp/gemini-assistant-frame.jpg");
}
