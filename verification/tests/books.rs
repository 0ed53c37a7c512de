use std::io::{Cursor, Write};

use zagorakys::cache::{get_or_extract, MobiCache};
use zagorakys::mobi::{extract_images_from_mobi_data, extract_mobi_metadata};
use zagorakys::preview::{get_mobi_info, get_mobi_page, picture_url, show_page};
use zagorakys::sniff::{detect_archive_type, image_ext_from_bytes, picture_mime};

fn zip_of(entries: &[(&str, &[u8])]) -> Vec<u8> {
    let mut writer = zip::ZipWriter::new(Cursor::new(Vec::new()));
    let opts = zip::write::SimpleFileOptions::default()
        .compression_method(zip::CompressionMethod::Deflated);
    for (name, content) in entries {
        writer.start_file(*name, opts).unwrap();
        writer.write_all(content).unwrap();
    }
    writer.finish().unwrap().into_inner()
}

/// A database with the given records, behind the header and the record list.
fn database(name: &str, records: &[Vec<u8>]) -> Vec<u8> {
    let mut data = vec![0u8; 78];
    data[..name.len()].copy_from_slice(name.as_bytes());
    data[76..78].copy_from_slice(&(records.len() as u16).to_be_bytes());
    let mut at = 78 + 8 * records.len();
    for r in records {
        data.extend_from_slice(&(at as u32).to_be_bytes());
        data.extend_from_slice(&[0; 4]);
        at += r.len();
    }
    for r in records {
        data.extend_from_slice(r);
    }
    data
}

fn put(rec: &mut [u8], at: usize, v: u32) {
    rec[at..at + 4].copy_from_slice(&v.to_be_bytes());
}

/// A first record with a full title and extended records.
fn headers(title: &[u8], extended: &[(u32, &[u8])]) -> Vec<u8> {
    let mut rec = vec![0u8; 132];
    put(&mut rec, 20, 116); // the extended header follows at 16 + 116
    rec.extend_from_slice(b"EXTH");
    rec.extend_from_slice(&[0; 4]);
    rec.extend_from_slice(&(extended.len() as u32).to_be_bytes());
    for (kind, body) in extended {
        rec.extend_from_slice(&kind.to_be_bytes());
        rec.extend_from_slice(&(body.len() as u32 + 8).to_be_bytes());
        rec.extend_from_slice(body);
    }
    let at = rec.len() as u32;
    put(&mut rec, 84, at);
    put(&mut rec, 88, title.len() as u32);
    rec.extend_from_slice(title);
    rec
}

#[test]
fn mobi_titles_and_authors_are_read() {
    let rec = headers("Größe".as_bytes(), &[(101, b"x"), (100, b"First"), (100, b"Second")]);
    let data = database("Short_Name", &[rec]);
    assert_eq!(
        extract_mobi_metadata(&data),
        ("Größe".to_string(), "Second".to_string())
    );
}

#[test]
fn mobi_titles_fall_back_to_the_name_of_the_database() {
    let data = database("Short_Name", &[headers(b"", &[])]);
    assert_eq!(extract_mobi_metadata(&data), ("Short_Name".to_string(), String::new()));
    // Not UTF-8: as if there were no full title; an author that is not is empty.
    let data = database("Short_Name", &[headers(&[0xFF, 0xFE], &[(100, b"A"), (100, &[0xC0])])]);
    assert_eq!(extract_mobi_metadata(&data), ("Short_Name".to_string(), String::new()));
    // The title reaches over the end.
    let mut rec = headers(b"Full", &[(100, b"A")]);
    put(&mut rec, 88, u32::MAX);
    let data = database("Short_Name", &[rec]);
    assert_eq!(extract_mobi_metadata(&data), ("Short_Name".to_string(), "A".to_string()));
    assert_eq!(extract_mobi_metadata(b"abc\0\0"), ("abc".to_string(), String::new()));
}

#[test]
fn mobi_headers_that_reach_over_the_end_are_left() {
    // The first record is said to start beyond the end.
    let mut data = database("N", &[headers(b"Full", &[(100, b"A")])]);
    put(&mut data, 78, u32::MAX);
    assert_eq!(extract_mobi_metadata(&data), ("N".to_string(), String::new()));
    // An extended record that is too short ends the list.
    let mut rec = headers(b"Full", &[(100, b"A"), (100, b"B")]);
    put(&mut rec, 132 + 12 + 9 + 4, 7);
    assert_eq!(
        extract_mobi_metadata(&database("N", &[rec])),
        ("Full".to_string(), "A".to_string())
    );
    // No mark of extended records.
    let mut rec = headers(b"Full", &[(100, b"A")]);
    rec[132] = b'X';
    assert_eq!(extract_mobi_metadata(&database("N", &[rec])), ("Full".to_string(), String::new()));
}

#[test]
fn mobi_pictures_are_told_by_their_first_bytes() {
    let jpeg = vec![0xFF, 0xD8, 0xFF, 0xE0, 1];
    let png = vec![0x89, 0x50, 0x4E, 0x47, 2];
    let gif = b"GIF89a".to_vec();
    let bmp = vec![0x42, 0x4D, 3];
    let text = b"<html>".to_vec();
    let stub = vec![0xFF, 0xD8, 0xFF];
    let data = database(
        "N",
        &[text.clone(), jpeg.clone(), stub, png.clone(), gif.clone(), bmp.clone(), text],
    );
    assert_eq!(extract_images_from_mobi_data(&data), Ok(vec![jpeg, png, gif, bmp]));
}

#[test]
fn mobi_record_lists_may_be_cut_or_wrong() {
    assert_eq!(
        extract_images_from_mobi_data(&[0; 77]),
        Err("File too small to be MOBI".to_string())
    );
    // More records are announced than are listed.
    let jpeg = vec![0xFF, 0xD8, 0xFF, 0xE0];
    let mut data = vec![0u8; 78];
    data[76..78].copy_from_slice(&500u16.to_be_bytes());
    data.extend_from_slice(&82u32.to_be_bytes());
    data.extend_from_slice(&jpeg);
    assert_eq!(extract_images_from_mobi_data(&data), Ok(vec![jpeg.clone()]));
    // With four bytes more the second entry is read behind the picture.
    data.extend_from_slice(&[0xFF; 4]);
    assert_eq!(extract_images_from_mobi_data(&data), Ok(vec![]));
    // Records that start beyond the end, or end before they start, are left.
    let mut two = database("N", &[jpeg.clone(), jpeg]);
    put(&mut two, 86, 0);
    assert_eq!(extract_images_from_mobi_data(&two), Ok(vec![]));
}

#[test]
fn formats_are_told_apart() {
    assert_eq!(image_ext_from_bytes(b"RIFF....WEBP"), "webp");
    assert_eq!(image_ext_from_bytes(b"RIFF....WAVE"), "jpg");
    assert_eq!(image_ext_from_bytes(&[]), "jpg");
    assert_eq!(picture_mime(b"RIFF....WEBP"), "image/webp");
    assert_eq!(picture_mime(&[0x89, 0x50, 0x4E, 0x47]), "image/png");
    assert_eq!(picture_mime(b"GIF87a"), "image/gif");
    assert_eq!(picture_mime(b"BM"), "image/bmp");
    assert_eq!(picture_mime(b"?"), "image/jpeg");
}

#[test]
fn archives_are_told_by_bytes_before_extensions() {
    assert_eq!(detect_archive_type(b"PK\x03\x04", "cbr"), "zip");
    assert_eq!(detect_archive_type(b"PK", "cbr"), "rar");
    assert_eq!(detect_archive_type(b"Rar!\x1a\x07\x00", "cbz"), "rar");
    assert_eq!(detect_archive_type(b"Rar!\x1a\x07\x01\x00", "zip"), "rar");
    assert_eq!(detect_archive_type(b"Rar!\x1a\x07\x01", "zip"), "zip");
    assert_eq!(detect_archive_type(b"", "CBZ"), "zip");
    assert_eq!(detect_archive_type(b"", "Rar"), "rar");
    assert_eq!(detect_archive_type(b"%PDF-1.7", "pdf"), "unknown");
}

#[test]
fn pictures_become_data_urls() {
    assert_eq!(picture_url(b"GIF89a"), "data:image/gif;base64,R0lGODlh");
    assert_eq!(picture_url(&[0x42, 0x4D]), "data:image/bmp;base64,Qk0=");
    assert_eq!(picture_url(&[0xFF, 0xFB, 0xFE, 0x3F]), "data:image/jpeg;base64,//v+Pw==");
    assert_eq!(picture_url(&[]), "data:image/jpeg;base64,");
}

#[test]
fn pages_beyond_the_last_show_the_last() {
    let page = show_page(Ok(vec![b"BM0".to_vec(), b"GIF89a".to_vec()]), 9).unwrap();
    assert_eq!((page.page, page.page_count), (1, 2));
    assert_eq!(page.image, "data:image/gif;base64,R0lGODlh");
    let page = show_page(Ok(vec![b"BM0".to_vec(), b"GIF89a".to_vec()]), 0).unwrap();
    assert_eq!((page.page, page.image.as_str()), (0, "data:image/bmp;base64,Qk0w"));
    assert_eq!(show_page(Ok(vec![]), 0).unwrap_err(), "No images found");
    assert_eq!(show_page(Err("x".to_string()), 0).unwrap_err(), "x");
}

#[test]
fn kept_books_are_not_read_again() {
    let mut cache = MobiCache::new();
    let cbz = zip_of(&[("2.jpg", b"two"), ("10.jpg", b"ten"), ("info.xml", b"<x/>")]);
    let pages = get_or_extract(&mut cache, "a.cbz", "CBZ", Ok(&cbz)).unwrap();
    assert_eq!(pages, vec![b"two".to_vec(), b"ten".to_vec()]);
    assert!(cache.contains("a.cbz"));
    // The second time the file may be gone.
    let again = get_or_extract(&mut cache, "a.cbz", "CBZ", Err("gone".to_string()));
    assert_eq!(again, Ok(pages.clone()));
    assert_eq!(cache.get("a.cbz"), Some(pages));
    cache.remove("a.cbz");
    assert!(!cache.contains("a.cbz"));
    assert_eq!(cache.get("a.cbz"), None);
}

#[test]
fn failures_are_not_kept() {
    let mut cache = MobiCache::new();
    let r = get_or_extract(&mut cache, "a", "zip", Err("gone".to_string()));
    assert_eq!(r, Err("Cannot read CBZ: gone".to_string()));
    let r = get_or_extract(&mut cache, "a", "mobi", Err("gone".to_string()));
    assert_eq!(r, Err("Cannot read MOBI: gone".to_string()));
    let r = get_or_extract(&mut cache, "a", "mobi", Ok(b"short"));
    assert_eq!(r, Err("File too small to be MOBI".to_string()));
    let r = get_or_extract(&mut cache, "a", "cbz", Ok(b"no archive"));
    assert!(r.unwrap_err().starts_with("Cannot open CBZ: "));
    assert!(!cache.contains("a"));
}

#[test]
fn three_books_are_kept() {
    let mut cache = MobiCache::new();
    let cbz = zip_of(&[("1.jpg", b"one")]);
    for name in ["a", "b", "c", "d", "e"] {
        get_or_extract(&mut cache, name, "cbz", Ok(&cbz)).unwrap();
        assert!(cache.contains(name));
    }
    let kept = ["a", "b", "c", "d", "e"].iter().filter(|n| cache.contains(n)).count();
    assert_eq!(kept, 3);
}

#[test]
fn the_previewer_is_told_of_books() {
    let mut cache = MobiCache::new();
    let cbz = zip_of(&[("1.jpg", b"one"), ("2.jpg", b"two")]);
    let info =
        get_mobi_info(&mut cache, "k", "cbz", "My Comic", Ok(2048), Ok(&cbz)).unwrap();
    assert_eq!(
        (info.page_count, info.file_size.as_str(), info.title.as_str(), info.author.as_str()),
        (2, "2.0 KB", "My Comic", "")
    );
    let e = get_mobi_info(&mut cache, "k", "cbz", "x", Err("gone".to_string()), Ok(&cbz));
    assert_eq!(e.unwrap_err(), "Cannot read: gone");

    let jpeg = vec![0xFF, 0xD8, 0xFF, 0xE0];
    let book = database("N", &[headers(b"Title", &[(100, b"Author")]), jpeg]);
    let info = get_mobi_info(&mut cache, "m", "mobi", "stem", Ok(0), Ok(&book)).unwrap();
    assert_eq!(
        (info.page_count, info.title.as_str(), info.author.as_str()),
        (1, "Title", "Author")
    );
    assert_eq!(info.file_size, format!("{} B", book.len()));
    let e = get_mobi_info(&mut cache, "m", "mobi", "stem", Ok(0), Err("gone".to_string()));
    assert_eq!(e.unwrap_err(), "Cannot read MOBI: gone");

    let page = get_mobi_page(&mut cache, "m", "mobi", 5, Err("gone".to_string())).unwrap();
    assert_eq!((page.page, page.page_count), (0, 1));
    assert_eq!(page.image, "data:image/jpeg;base64,/9j/4A==");
}
