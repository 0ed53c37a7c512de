use zagorakys::picture::{
    decode_image, encode_image, encode_pages, is_double, peek_image_dimensions, prepare_image,
    process_image_split, PageStyle,
};

fn style(width: u32, height: u32, grayscale: bool, contrast: bool, resize: bool) -> PageStyle {
    PageStyle { width, height, quality: 80, contrast, grayscale, resize }
}

fn rgb(w: u32, h: u32) -> image::DynamicImage {
    let mut img = image::RgbImage::new(w, h);
    for (x, y, p) in img.enumerate_pixels_mut() {
        *p = image::Rgb([(x % 256) as u8, (y % 256) as u8, 40]);
    }
    image::DynamicImage::ImageRgb8(img)
}

#[test]
fn large_pictures_are_fitted() {
    let img = prepare_image(rgb(1200, 800), style(600, 800, false, false, true));
    assert_eq!((img.width(), img.height()), (600, 400));
    let img = prepare_image(rgb(300, 1600), style(600, 800, false, false, true));
    assert_eq!((img.width(), img.height()), (150, 800));
    // Small ones, and those that are not to be fitted, keep their size.
    let img = prepare_image(rgb(300, 200), style(600, 800, false, false, true));
    assert_eq!((img.width(), img.height()), (300, 200));
    let img = prepare_image(rgb(1200, 800), style(600, 800, false, false, false));
    assert_eq!((img.width(), img.height()), (1200, 800));
}

#[test]
fn gray_and_contrast_are_applied() {
    let img = prepare_image(rgb(40, 40), style(600, 800, true, false, true));
    assert_eq!(img.color(), image::ColorType::L8);
    assert_ne!(img.to_luma8().get_pixel(0, 0), img.to_luma8().get_pixel(39, 39));
    let plain = prepare_image(rgb(250, 250), style(600, 800, true, false, true)).to_luma8();
    let strong = prepare_image(rgb(250, 250), style(600, 800, true, true, true)).to_luma8();
    assert!(strong.get_pixel(0, 0).0[0] < plain.get_pixel(0, 0).0[0]);
    assert!(strong.get_pixel(249, 249).0[0] > plain.get_pixel(249, 249).0[0]);
    let color = prepare_image(rgb(40, 40), style(600, 800, false, true, true));
    assert_eq!(color.color(), image::ColorType::Rgba8);
    let kept = prepare_image(rgb(40, 40), style(600, 800, false, false, true));
    assert_eq!(kept, rgb(40, 40));
}

#[test]
fn pages_keep_the_size_they_were_fitted_to() {
    let jpeg = encode_image(rgb(1200, 800), 600, 800, 80, true, false, true).unwrap();
    assert_eq!(&jpeg[..3], &[0xFF, 0xD8, 0xFF]);
    assert_eq!(peek_image_dimensions(&jpeg), Some((600, 400)));
    let back = decode_image(&jpeg).unwrap();
    assert_eq!((back.width(), back.height()), (600, 400));
}

#[test]
fn pages_keep_shape_and_colors() {
    for (w, h) in [(1999, 1500), (1000, 1600), (5000, 7), (3, 4000), (601, 801)] {
        let img = prepare_image(rgb(w, h), style(600, 800, false, false, true));
        assert_eq!(img.color(), image::ColorType::Rgb8);
        let (a, b) = (img.width() as i64, img.height() as i64);
        let (w, h) = (w as i64, h as i64);
        assert!(
            (a == 600 && (b * w - h * 600).abs() <= w) || (b == 800 && (a * h - w * 800).abs() <= h)
        );
    }
    for (gray, contrast) in [(true, false), (true, true), (false, false), (false, true)] {
        let jpeg = encode_image(rgb(700, 500), 600, 800, 60, contrast, gray, true).unwrap();
        assert_eq!(peek_image_dimensions(&jpeg), Some((600, 429)));
        let color = decode_image(&jpeg).unwrap().color();
        assert_eq!(color, if gray { image::ColorType::L8 } else { image::ColorType::Rgb8 });
    }
    let long = encode_image(rgb(65535, 1), 9, 9, 60, false, false, false).unwrap();
    assert_eq!(peek_image_dimensions(&long), Some((65535, 1)));
}

#[test]
fn pictures_without_pixels_cannot_be_encoded() {
    let e = encode_image(rgb(0, 10), 600, 800, 80, false, true, false).unwrap_err();
    assert!(e.starts_with("JPEG encode error: "), "{e}");
    let long = image::DynamicImage::ImageLuma8(image::GrayImage::new(1, 70_000));
    let e = encode_image(long.clone(), 600, 800, 80, false, true, false).unwrap_err();
    assert!(e.starts_with("JPEG encode error: "), "{e}");
    assert!(encode_image(long, 600, 800, 80, false, true, true).is_ok());
}

#[test]
fn broken_pictures_are_refused() {
    let e = decode_image(b"no picture").unwrap_err();
    assert!(e.starts_with("Decode error: "), "{e}");
    assert_eq!(peek_image_dimensions(b"no picture"), None);
    let e = process_image_split(b"no picture", 600, 800, 80, false, true, true, true).unwrap_err();
    assert!(e.starts_with("Decode error: "), "{e}");
}

#[test]
fn double_pages_are_cut_in_the_middle() {
    // Left half black, right half white; an odd width gives the right half more.
    let mut img = image::GrayImage::new(301, 200);
    for (x, _, p) in img.enumerate_pixels_mut() {
        *p = image::Luma([if x < 150 { 0 } else { 255 }]);
    }
    let pages =
        encode_pages(image::DynamicImage::ImageLuma8(img), style(600, 800, true, false, true), true)
            .unwrap();
    assert_eq!(pages.len(), 2);
    assert_eq!(peek_image_dimensions(&pages[0]), Some((150, 200)));
    assert_eq!(peek_image_dimensions(&pages[1]), Some((151, 200)));
    let left = decode_image(&pages[0]).unwrap().to_luma8();
    let right = decode_image(&pages[1]).unwrap().to_luma8();
    assert!(left.get_pixel(75, 100).0[0] < 10);
    assert!(right.get_pixel(75, 100).0[0] > 245);
}

#[test]
fn the_first_failure_is_the_result() {
    // Both halves have no rows.
    let img = image::DynamicImage::ImageLuma8(image::GrayImage::new(10, 0));
    let e = encode_pages(img, style(600, 800, true, false, true), true).unwrap_err();
    assert!(e.starts_with("JPEG encode error: "), "{e}");
}

#[test]
fn the_threshold_is_five_quarters() {
    assert!(!is_double(250, 200, true));
    assert!(is_double(251, 200, true));
    assert!(!is_double(251, 200, false));
    // 5/4 of 201 is 251.25, which is cut.
    assert!(!is_double(251, 201, true));
    assert!(is_double(252, 201, true));
    assert!(!is_double(u32::MAX, u32::MAX, true));
}
