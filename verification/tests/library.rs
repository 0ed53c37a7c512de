use std::io::{Cursor, Read, Write};

use kindling::comic::{build_comic_with_options, ComicOptions, DeviceProfile};
use zagorakys::archive::extract_images_from_cbz;
use zagorakys::device::{device_profile, is_cbz_output};
use zagorakys::mobi::{extract_images_from_mobi_data, extract_mobi_metadata};
use zagorakys::natural::natural_cmp;
use zagorakys::pages::{CbzBook, CbzRun, CbzStep};
use zagorakys::picture::{decode_image, encode_image, process_image_split};
use zagorakys::quality::check_optimize_savings;
use zagorakys::size::format_size;
use zagorakys::sniff::image_ext_from_bytes;

fn zip_of(entries: &[(String, Vec<u8>)]) -> Vec<u8> {
    let mut writer = zip::ZipWriter::new(Cursor::new(Vec::new()));
    let opts = zip::write::SimpleFileOptions::default()
        .compression_method(zip::CompressionMethod::Stored);
    for (name, content) in entries {
        writer.start_file(name.as_str(), opts).unwrap();
        writer.write_all(content).unwrap();
    }
    writer.finish().unwrap().into_inner()
}

fn gradient(w: u32, h: u32, a: u32, b: u32) -> image::DynamicImage {
    let mut img = image::GrayImage::new(w, h);
    for (x, y, p) in img.enumerate_pixels_mut() {
        *p = image::Luma([((x * a + y * b) % 256) as u8]);
    }
    image::DynamicImage::ImageLuma8(img)
}

#[test]
fn format_size_bytes() {
    assert_eq!(format_size(500), "500 B");
}

#[test]
fn natural_cmp_orders_pages_numerically() {
    let mut v = vec![
        "10.jpg".to_string(),
        "2.jpg".to_string(),
        "1.jpg".to_string(),
        "11.jpg".to_string(),
    ];
    v.sort_by(|a, b| natural_cmp(a, b));
    assert_eq!(v, vec!["1.jpg", "2.jpg", "10.jpg", "11.jpg"]);
}

#[test]
fn natural_cmp_handles_prefixes_and_padding() {
    let mut v = vec![
        "page-9.png".to_string(),
        "page-10.png".to_string(),
        "page-1.png".to_string(),
    ];
    v.sort_by(|a, b| natural_cmp(a, b));
    assert_eq!(v, vec!["page-1.png", "page-9.png", "page-10.png"]);
    let mut p = vec!["0002.jpg".to_string(), "0001.jpg".to_string()];
    p.sort_by(|a, b| natural_cmp(a, b));
    assert_eq!(p, vec!["0001.jpg", "0002.jpg"]);
}

#[test]
fn format_size_kilobytes() {
    assert_eq!(format_size(2048), "2.0 KB");
}

#[test]
fn format_size_megabytes() {
    assert_eq!(format_size(5 * 1024 * 1024), "5.0 MB");
}

#[test]
fn format_size_zero() {
    assert_eq!(format_size(0), "0 B");
}

#[test]
fn format_size_gigabytes() {
    assert_eq!(format_size(2 * 1024 * 1024 * 1024), "2.0 GB");
}

/// A comic of four pages, in a CBZ file.
fn comic() -> Vec<u8> {
    let made = (0..4u32)
        .map(|i| {
            encode_image(gradient(300, 400, 3 + i, 5), 600, 800, 80, false, true, false)
                .map(|page| vec![page])
        })
        .collect();
    let mut run = CbzRun::new(made);
    let mut book = CbzBook::start();
    while let CbzStep::Write(_, entries) = run.step() {
        book.write(&entries).unwrap();
    }
    book.finish().unwrap()
}

/// What the MOBI writer makes of the comic.
fn comic_as_mobi() -> Vec<u8> {
    let profile = DeviceProfile {
        width: 600,
        height: 800,
        grayscale: true,
        name: "kindle4",
    };

    let options = ComicOptions {
        jpeg_quality: 20,
        enhance: false,
        split: false,
        crop: 0,
        panel_view: false,
        embed_source: false,
        ..ComicOptions::default()
    };

    let mut source = tempfile::Builder::new().suffix(".cbz").tempfile().unwrap();
    source.write_all(&comic()).unwrap();
    source.flush().unwrap();
    let out = tempfile::Builder::new().suffix(".mobi").tempfile().unwrap();
    build_comic_with_options(source.path(), out.path(), &profile, &options).unwrap();
    assert!(out.path().exists());

    let mut data = Vec::new();
    out.reopen().unwrap().read_to_end(&mut data).unwrap();
    data
}

#[test]
fn kindling_converts_cbz_to_mobi() {
    let size = comic_as_mobi().len();
    assert!(size > 0);
}

#[test]
fn mobi_reader_extracts_images() {
    let images = extract_images_from_mobi_data(&comic_as_mobi()).unwrap();
    assert!(images.len() >= 4, "expected at least 4 images, got {}", images.len());
}

#[test]
fn extract_images_from_cbz_returns_nonempty_pages() {
    let images = extract_images_from_cbz(&comic()).unwrap();
    assert!(images.len() >= 4, "expected at least 4 images, got {}", images.len());
    for img in &images {
        assert!(!img.is_empty());
    }
}

#[test]
fn extract_cbz_orders_pages_naturally() {
    // Scrambled archive order, distinct gray per page; natural sort must
    // yield reading order 1, 2, 10 (not lexical 1, 10, 2).
    let solid_jpeg = |luma: u8| -> Vec<u8> {
        let img = image::DynamicImage::ImageLuma8(image::GrayImage::from_pixel(
            128,
            128,
            image::Luma([luma]),
        ));
        encode_image(img, 4096, 4096, 90, false, true, false).unwrap()
    };

    // (name, marker luma), inserted out of natural order on purpose.
    let entries: Vec<(String, Vec<u8>)> = [("10.jpg", 150u8), ("2.jpg", 90u8), ("1.jpg", 30u8)]
        .iter()
        .map(|(name, luma)| (name.to_string(), solid_jpeg(*luma)))
        .collect();

    let extracted = extract_images_from_cbz(&zip_of(&entries)).unwrap();
    assert_eq!(extracted.len(), 3);

    let markers: Vec<u8> = extracted
        .iter()
        .map(|raw| decode_image(raw).unwrap().to_luma8().get_pixel(64, 64).0[0])
        .collect();
    // Reading order 1(30), 2(90), 10(150): markers strictly ascending.
    assert!(
        markers[0] < markers[1] && markers[1] < markers[2],
        "pages not in natural order; markers={markers:?}"
    );
    assert!((markers[0] as i16 - 30).abs() < 10, "page 1 marker off: {}", markers[0]);
    assert!((markers[1] as i16 - 90).abs() < 10, "page 2 marker off: {}", markers[1]);
    assert!((markers[2] as i16 - 150).abs() < 10, "page 10 marker off: {}", markers[2]);
}

#[test]
fn split_threshold_matches_aspect_ratio() {
    let make = |w: u32, h: u32| -> Vec<u8> {
        let img = image::DynamicImage::ImageLuma8(image::GrayImage::from_pixel(
            w,
            h,
            image::Luma([128]),
        ));
        encode_image(img, 8192, 8192, 80, false, true, false).unwrap()
    };

    let wide = make(300, 200);
    let pages = process_image_split(&wide, 600, 800, 80, false, true, false, true).unwrap();
    assert_eq!(pages.len(), 2, "1.5:1 page should split");

    let mild = make(220, 200);
    let pages = process_image_split(&mild, 600, 800, 80, false, true, false, true).unwrap();
    assert_eq!(pages.len(), 1, "1.1:1 page should not split");

    let pages = process_image_split(&wide, 600, 800, 80, false, true, false, false).unwrap();
    assert_eq!(pages.len(), 1, "split=false should never split");
}

#[test]
fn image_ext_detection() {
    assert_eq!(image_ext_from_bytes(&[0xFF, 0xD8, 0xFF, 0xE0]), "jpg");
    assert_eq!(image_ext_from_bytes(&[0x89, 0x50, 0x4E, 0x47]), "png");
    assert_eq!(image_ext_from_bytes(b"GIF87a"), "gif");
    assert_eq!(image_ext_from_bytes(b"GIF89a"), "gif");
    assert_eq!(image_ext_from_bytes(&[0x42, 0x4D, 0x00]), "bmp");
    assert_eq!(image_ext_from_bytes(b"GIF"), "jpg"); // too short = fallback
    assert_eq!(image_ext_from_bytes(&[0x00]), "jpg"); // unknown = fallback
}

#[test]
fn device_profile_values() {
    assert_eq!(device_profile("kindle4"), (600, 800, "kindle4"));
    assert_eq!(device_profile("kindle-paperwhite"), (1072, 1448, "kindle_pw"));
    assert_eq!(device_profile("kindle-oasis"), (1264, 1680, "kindle_oasis"));
    assert_eq!(device_profile("kobo-clara-hd"), (1072, 1448, "kobo_clara_hd"));
    assert_eq!(device_profile("optimize"), (2048, 2048, "optimized"));
    assert_eq!(device_profile("pdf-optimize"), (1500, 1500, "pdf_optimized"));
    assert_eq!(device_profile("unknown"), (600, 800, "kindle4"));
}

#[test]
fn is_cbz_output_logic() {
    assert!(is_cbz_output("kobo-clara-hd"));
    assert!(is_cbz_output("optimize"));
    assert!(!is_cbz_output("kindle4"));
    assert!(!is_cbz_output("kindle-paperwhite"));
}

#[test]
fn encode_image_handles_quality_bounds() {
    // The encoder itself at the clamp boundaries (1 and 100). A gradient makes
    // quality actually matter.
    let low = encode_image(gradient(64, 64, 5, 3), 64, 64, 1, false, true, false).unwrap();
    let high = encode_image(gradient(64, 64, 5, 3), 64, 64, 100, false, true, false).unwrap();
    assert!(!low.is_empty() && !high.is_empty());
    assert_eq!(image_ext_from_bytes(&low), "jpg");
    assert!(
        high.len() > low.len(),
        "q100 ({}) should exceed q1 ({})",
        high.len(),
        low.len()
    );
}

#[test]
fn mobi_metadata_too_small() {
    let (title, author) = extract_mobi_metadata(&[0u8; 10]);
    assert!(author.is_empty());
    assert!(title.is_empty() || title.chars().all(|c| c == '\0'));
}

#[test]
fn mobi_data_too_small() {
    let result = extract_images_from_mobi_data(&[0u8; 10]);
    assert!(result.is_err());
}

#[test]
fn optimize_skips_already_compact_source() {
    // Already-q10 pages: re-encoding at the same quality is near-idempotent,
    // so projected savings stay under the 15% skip threshold.
    let page = encode_image(gradient(256, 256, 7, 13), 2048, 2048, 10, false, true, false).unwrap();
    let entries: Vec<(String, Vec<u8>)> =
        (0..5).map(|i| (format!("{i:02}.jpg"), page.clone())).collect();

    let result = check_optimize_savings(&zip_of(&entries), 2048, 2048, 10, false, true);
    assert!(
        result.is_some(),
        "already-compact q10 source should skip; got {result:?}"
    );
}
