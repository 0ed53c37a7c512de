use std::io::{Cursor, Write};

use zagorakys::archive::{
    extract_images_from_cbz, keep_readable, keep_samples, load_archive, need_content,
    require_pages, take_names, unpack_archive, ComicArchive, EntryRead, PageCounter, Taken,
};
use zagorakys::cancel::{cancel_convert, reset_cancel, ConvertCancel};
use zagorakys::pages::{BookRun, BookStep, CbzBook, CbzEntry, CbzRun, CbzStep};
use zagorakys::picture::{encode_image, process_image_split};
use zagorakys::quality::{
    check_optimize_savings, check_page_quality, check_sample_savings, check_source_quality,
    judge_pages, judge_resolution, judge_savings, keep_large_pages, page_sizes, pages_to_keep,
    source_sizes,
};

fn zip_of(entries: &[(&str, &[u8])]) -> Vec<u8> {
    let mut writer = zip::ZipWriter::new(Cursor::new(Vec::new()));
    let opts = zip::write::SimpleFileOptions::default()
        .compression_method(zip::CompressionMethod::Stored);
    for (name, content) in entries {
        writer.start_file(*name, opts).unwrap();
        writer.write_all(content).unwrap();
    }
    writer.finish().unwrap().into_inner()
}

fn page(w: u32, h: u32) -> Vec<u8> {
    let img = image::DynamicImage::ImageLuma8(image::GrayImage::from_pixel(w, h, image::Luma([99])));
    encode_image(img, 9999, 9999, 80, false, true, false).unwrap()
}

/// Damages the stored content of an entry, so that its checksum is wrong.
fn damage(mut archive: Vec<u8>, content: &[u8]) -> Vec<u8> {
    let at = archive.windows(content.len()).position(|w| w == content).unwrap();
    archive[at] ^= 0x55;
    archive
}

#[test]
fn only_readable_pages_are_extracted() {
    let cbz = zip_of(&[
        ("10.jpg", b"ten-ten"),
        ("2.JPG", b"two-two"),
        ("empty.png", b""),
        ("ComicInfo.xml", b"<x/>"),
        ("1.webp", b"one-one"),
    ]);
    let all = vec![b"one-one".to_vec(), b"two-two".to_vec(), b"ten-ten".to_vec()];
    assert_eq!(extract_images_from_cbz(&cbz), Ok(all.clone()));
    assert_eq!(unpack_archive(&cbz), Ok((all, true)));
    let damaged = damage(cbz, b"two-two");
    assert_eq!(
        extract_images_from_cbz(&damaged),
        Ok(vec![b"one-one".to_vec(), b"ten-ten".to_vec()])
    );
    let sorted = zip_of(&[("1.jpg", b"1"), ("2.jpg", b"2")]);
    assert_eq!(unpack_archive(&sorted), Ok((vec![b"1".to_vec(), b"2".to_vec()], false)));
}

#[test]
fn what_is_no_archive_is_refused() {
    assert!(extract_images_from_cbz(b"nothing").unwrap_err().starts_with("Cannot open CBZ: "));
    assert!(unpack_archive(b"").unwrap_err().starts_with("Cannot open CBZ: "));
    let (reordered, r) = load_archive(b"nothing", &ConvertCancel::new());
    assert!(!reordered);
    assert!(r.unwrap_err().starts_with("Cannot open archive: "));
    assert!(ComicArchive::open(b"nothing").is_err());
}

#[test]
fn conversions_need_every_page() {
    let cancel = ConvertCancel::new();
    let cbz = zip_of(&[("b.jpg", b"bbbb"), ("a.jpg", b"aaaa"), ("z.jpg", b"")]);
    let (reordered, pages) = load_archive(&cbz, &cancel);
    assert!(reordered);
    assert_eq!(pages, Ok(vec![b"aaaa".to_vec(), b"bbbb".to_vec(), Vec::new()]));
    let (_, pages) = load_archive(&damage(cbz, b"bbbb"), &cancel);
    assert!(pages.unwrap_err().starts_with("Read error: "));
    let (reordered, pages) = load_archive(&zip_of(&[("a.txt", b"x")]), &cancel);
    assert!(!reordered);
    assert_eq!(pages, Err("No images found in archive".to_string()));
    assert_eq!(require_pages(vec![vec![1]]), Ok(vec![vec![1]]));
    assert_eq!(require_pages(vec![]), Err("No images found in archive".to_string()));
}

#[test]
fn conversions_can_be_called_off() {
    let cancel = ConvertCancel::new();
    assert!(!cancel.is_set());
    assert_eq!(cancel_convert(&cancel), Ok(()));
    assert!(cancel.is_set());
    let cbz = zip_of(&[("a.jpg", b"aaaa")]);
    assert_eq!(load_archive(&cbz, &cancel).1, Err("Cancelled".to_string()));
    assert_eq!(reset_cancel(&cancel), Ok(()));
    assert!(!cancel.is_set());
    assert_eq!(load_archive(&cbz, &cancel).1, Ok(vec![b"aaaa".to_vec()]));
}

#[test]
fn steps_of_a_conversion_heed_the_flag() {
    let cbz = zip_of(&[("a.jpg", b"aaaa")]);
    let mut archive = ComicArchive::open(&cbz).unwrap();
    assert_eq!(archive.read_step("a.jpg", false), Ok(b"aaaa".to_vec()));
    assert_eq!(archive.read_step("a.jpg", true), Err("Cancelled".to_string()));
    assert!(archive.read_step("b.jpg", false).unwrap_err().starts_with("Cannot read b.jpg: "));
    let none = ConvertCancel::new();
    assert_eq!(cancel_convert(&none), Ok(()));
    assert_eq!(archive.read_pages(&Vec::new(), &none), Ok(Vec::new()));
}

#[test]
fn small_pages_are_left_out() {
    let sizes = vec![Some((300, 400)), Some((299, 400)), None, Some((700, 400)), Some((598, 400))];
    assert_eq!(pages_to_keep(&sizes, 300, true), vec![0, 2, 3]);
    assert_eq!(pages_to_keep(&sizes, 300, false), vec![0, 2, 3, 4]);
    assert_eq!(pages_to_keep(&sizes, 0, true), vec![0, 1, 2, 3, 4]);
    assert_eq!(judge_pages(&sizes, 300, true), None);
    let small = vec![Some((10, 20)), Some((40, 30)), Some((20, 10))];
    assert_eq!(pages_to_keep(&small, 50, true), Vec::<usize>::new());
    assert_eq!(judge_pages(&small, 50, true), Some((40, 30, true)));
    assert_eq!(judge_pages(&small, 50, false), Some((40, 30, false)));
    assert_eq!(judge_pages(&Vec::new(), 50, true), None);

    let pages = vec![page(30, 40), page(10, 10), b"unknown".to_vec(), page(20, 40)];
    assert_eq!(page_sizes(&pages), vec![Some((30, 40)), Some((10, 10)), None, Some((20, 40))]);
    assert_eq!(
        keep_large_pages(pages.clone(), 20, true),
        Ok(vec![page(30, 40), b"unknown".to_vec(), page(20, 40)])
    );
    assert_eq!(keep_large_pages(pages.clone(), 0, true), Ok(pages));
    assert_eq!(keep_large_pages(vec![page(9, 9), page(10, 12)], 20, true), Err((10, 12, false)));
    assert_eq!(keep_large_pages(Vec::new(), 20, true), Ok(Vec::new()));

    let cbz = zip_of(&[("10.jpg", &page(10, 12)), ("2.jpg", &page(20, 24)), ("x.jpg", b"?")]);
    assert_eq!(source_sizes(&cbz), vec![Some((20, 24)), Some((10, 12)), None]);
    assert_eq!(source_sizes(b"nothing"), Vec::new());
    assert_eq!(check_source_quality(&cbz, 15, true), Some((10, 12, false)));
    assert_eq!(judge_pages(&source_sizes(&cbz), 15, true), None);
}

#[test]
fn entries_are_found_by_name() {
    let cbz = zip_of(&[("x/a.jpg", b"aaaa"), ("notes", b"n")]);
    let mut archive = ComicArchive::open(&cbz).unwrap();
    assert_eq!(
        archive.entries(),
        vec![Some("x/a.jpg".to_string()), Some("notes".to_string())]
    );
    assert_eq!(archive.listed_pages(), vec!["x/a.jpg".to_string()]);
    let entry = archive.read("x/a.jpg").unwrap();
    assert_eq!((entry.compressed, entry.content), (4, Ok(b"aaaa".to_vec())));
    assert!(archive.read("missing").is_err());
}

#[test]
fn failures_of_entries_are_put_into_words() {
    let fine = || Ok(EntryRead { compressed: 3, content: Ok(vec![7]) });
    let torn = || Ok(EntryRead { compressed: 3, content: Err("torn".to_string()) });
    assert_eq!(need_content("p", fine()), Ok(vec![7]));
    assert_eq!(need_content("p", torn()), Err("Read error: torn".to_string()));
    assert_eq!(
        need_content("p", Err("lost".to_string())),
        Err("Cannot read p: lost".to_string())
    );
    let reads = vec![
        fine(),
        torn(),
        Err("lost".to_string()),
        Ok(EntryRead { compressed: 9, content: Ok(vec![]) }),
    ];
    assert_eq!(keep_readable(&reads), vec![vec![7]]);
    assert_eq!(keep_samples(&reads), vec![(3, vec![7]), (9, vec![])]);
}

#[test]
fn names_are_taken_from_entries() {
    let entries = vec![
        Some("b.PNG".to_string()),
        None,
        Some("gif".to_string()),
        Some("a.txt".to_string()),
        Some("a.tif".to_string()),
    ];
    assert_eq!(take_names(Taken::Pages, &entries), vec!["b.PNG", "a.tif"]);
    assert_eq!(take_names(Taken::Samples, &entries), vec!["b.PNG", "gif", "a.tif"]);
}

#[test]
fn pages_that_are_written_are_numbered() {
    let mut counter = PageCounter::new();
    assert_eq!(counter.name_for(b"GIF89a"), "0000.gif");
    counter.note(true);
    assert_eq!(counter.name_for(b"BM"), "0001.bmp");
    counter.note(false);
    assert_eq!(counter.name_for(b"??"), "0001.jpg");
    assert_eq!(counter.written, 1);
}

#[test]
fn the_page_in_the_middle_is_judged() {
    let (small, large) = (page(100, 150), page(400, 600));
    let cbz = zip_of(&[("3.jpg", &large), ("1.jpg", &large), ("2.jpg", &small)]);
    assert_eq!(check_source_quality(&cbz, 200, true), Some((100, 150, false)));
    assert_eq!(check_source_quality(&cbz, 100, true), None);
    assert_eq!(check_source_quality(&cbz, 0, true), None);
    assert_eq!(check_source_quality(b"nothing", 200, true), None);
    assert_eq!(check_source_quality(&zip_of(&[("a.txt", b"x")]), 200, true), None);
    assert_eq!(check_page_quality(b"no picture", 200, true), None);
    let mut archive = ComicArchive::open(&cbz).unwrap();
    assert_eq!(archive.middle_page(), Some(small));
}

#[test]
fn halves_of_double_pages_are_judged() {
    // 300 wide and 200 high: split, so 150 counts.
    assert_eq!(judge_resolution(Some((300, 200)), 200, true), Some((300, 200, true)));
    assert_eq!(judge_resolution(Some((300, 200)), 200, false), None);
    assert_eq!(judge_resolution(Some((300, 200)), 150, true), None);
    // At exactly five quarters nothing is split.
    assert_eq!(judge_resolution(Some((250, 200)), 200, true), None);
    assert_eq!(judge_resolution(Some((251, 200)), 200, true), Some((251, 200, true)));
    assert_eq!(judge_resolution(Some((500, 199)), 200, false), Some((500, 199, false)));
    assert_eq!(judge_resolution(None, 200, true), None);
    assert_eq!(judge_resolution(Some((u32::MAX, u32::MAX)), 200, true), None);
}

#[test]
fn verdicts_and_splits_agree() {
    for (w, h) in [(250, 200), (251, 200), (300, 200), (200, 300), (252, 201), (251, 201)] {
        let raw = page(w, h);
        let (_, _, double) = check_page_quality(&raw, 9999, true).unwrap();
        let pages = process_image_split(&raw, 600, 800, 80, false, true, true, true).unwrap();
        assert_eq!(double, pages.len() == 2);
    }
}

#[test]
fn small_savings_are_not_worth_it() {
    let jpg = vec![0xFF, 0xD8, 0xFF];
    let png = vec![0x89, 0x50, 0x4E, 0x47];
    let samples = vec![(1000, jpg.clone()), (1000, png), (1000, jpg)];
    // 2000 bytes become 1720: 14 percent.
    assert_eq!(
        judge_savings(&samples, &vec![Some(860), None, Some(860)]),
        Some("already compact (jpg, ~14% savings across 3/5 samples)".to_string())
    );
    // 1710 of 2000: 15 percent (85.5 is cut to 85).
    assert_eq!(judge_savings(&samples, &vec![Some(860), None, Some(850)]), None);
    assert_eq!(
        judge_savings(&samples, &vec![Some(5000), None, None]),
        Some("already compact (jpg, ~0% savings across 3/5 samples)".to_string())
    );
    assert_eq!(judge_savings(&samples, &vec![None, None, None]), None);
    assert_eq!(judge_savings(&vec![], &vec![]), None);
}

#[test]
fn samples_are_encoded_anew() {
    // A bitmap shrinks a lot; what cannot be decoded counts for nothing.
    let mut bmp = Cursor::new(Vec::new());
    image::DynamicImage::ImageRgb8(image::RgbImage::from_pixel(200, 200, image::Rgb([9, 99, 199])))
        .write_to(&mut bmp, image::ImageFormat::Bmp)
        .unwrap();
    let bmp = bmp.into_inner();
    let cbz = zip_of(&[("1.bmp", &bmp), ("2.jpg", b"broken")]);
    assert_eq!(check_optimize_savings(&cbz, 2048, 2048, 20, false, true), None);
    let compact = page(64, 64);
    let cbz = zip_of(&[("1.jpg", &compact), ("2.jpg", &compact)]);
    let reason = check_optimize_savings(&cbz, 2048, 2048, 80, false, true).unwrap();
    assert!(reason.starts_with("already compact (jpg, ~"), "{reason}");
    assert!(reason.ends_with("% savings across 2/5 samples)"), "{reason}");
    assert_eq!(check_optimize_savings(b"nothing", 2048, 2048, 20, false, true), None);
    assert_eq!(check_optimize_savings(&zip_of(&[("a.txt", b"x")]), 9, 9, 9, false, true), None);
    let style = zagorakys::picture::PageStyle {
        width: 2048,
        height: 2048,
        quality: 80,
        contrast: false,
        grayscale: true,
        resize: false,
    };
    let samples = vec![(compact.len() as u64, compact)];
    assert!(check_sample_savings(&samples, style).is_some());
}

#[test]
fn five_samples_are_taken_from_an_archive() {
    let names: Vec<String> = (0..12).map(|i| format!("{i}.jpg")).collect();
    let entries: Vec<(&str, &[u8])> =
        names.iter().map(|n| (n.as_str(), n.as_bytes())).collect();
    let cbz = zip_of(&entries);
    let mut archive = ComicArchive::open(&cbz).unwrap();
    let samples = archive.sample_pages().unwrap();
    let contents: Vec<String> =
        samples.iter().map(|(_, c)| String::from_utf8(c.clone()).unwrap()).collect();
    assert_eq!(contents, vec!["0.jpg", "2.jpg", "4.jpg", "7.jpg", "9.jpg"]);
    assert_eq!(samples[0].0, 5);
}

#[test]
fn written_books_are_read_again() {
    // The contents look like parts of an archive.
    let pages: Vec<Vec<u8>> = (0..120u8)
        .map(|i| [b"PK\x05\x06PK\x01\x02".to_vec(), vec![i; i as usize]].concat())
        .collect();
    let made = pages.chunks(2).map(|c| Ok(c.to_vec())).collect();
    let mut run = CbzRun::new(made);
    let mut book = CbzBook::start();
    while let CbzStep::Write(_, entries) = run.step() {
        book.write(&entries).unwrap();
    }
    let data = book.finish().unwrap();
    assert_eq!(extract_images_from_cbz(&data), Ok(pages.clone()));
    assert_eq!(unpack_archive(&data), Ok((pages, false)));
    let mut archive = ComicArchive::open(&data).unwrap();
    assert_eq!(archive.entries()[119], Some("0119.jpg".to_string()));
    let entry = archive.read("0003.jpg").unwrap();
    assert_eq!(entry.compressed, 11);
}

#[test]
fn books_are_made_of_all_pictures() {
    let made = || vec![Ok(vec![vec![1], vec![2]]), Ok(vec![]), Ok(vec![vec![3]])];
    let mut book = BookRun::new(made());
    for i in 1..=3usize {
        match book.step() {
            BookStep::Working(p) => assert_eq!(p.message, format!("Writing {i}/3")),
            _ => panic!("nothing was written"),
        }
    }
    assert!(matches!(book.step(), BookStep::Finished));
    let data = book.finish().unwrap();
    assert_eq!(extract_images_from_cbz(&data), Ok(vec![vec![1], vec![2], vec![3]]));
    assert_eq!(ComicArchive::open(&data).unwrap().listed_pages()[2], "0002.jpg");

    let mut some = made();
    some[1] = Err("bad".to_string());
    let mut book = BookRun::new(some);
    assert!(matches!(book.step(), BookStep::Working(_)));
    match book.step() {
        BookStep::Failed(e) => assert_eq!(e, "bad"),
        _ => panic!("no failure"),
    }
}

#[test]
fn names_are_written_once() {
    let page = || vec![CbzEntry { name: "0000.jpg".to_string(), content: vec![1] }];
    let mut book = CbzBook::start();
    assert_eq!(book.write(&page()), Ok(()));
    assert!(book.write(&page()).unwrap_err().starts_with("ZIP write error: "));
    let longest = vec![CbzEntry { name: "n".repeat(65535), content: vec![] }];
    let mut book = CbzBook::start();
    assert_eq!(book.write(&longest), Ok(()));
    assert!(book.finish().is_ok());
    let empty = CbzBook::start().finish().unwrap();
    assert_eq!(extract_images_from_cbz(&empty), Ok(vec![]));
}
