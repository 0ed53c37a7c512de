use std::cmp::Ordering;

use zagorakys::listing::{
    directory_pages, extension_or, is_image_ext, is_zip_out_of_order, list_comics, middle_picture,
    natural_order, page_name, pick_sample_indices, reading_order, rendered_pages, sample_name,
    sample_pictures, sort_naturally, wanted_files, ListedFile, Wanted,
};
use zagorakys::names::{find_pending, numbered_name, pending_name, pending_pattern};
use zagorakys::natural::natural_cmp;
use zagorakys::text::{decimal4_text, split_lines, trim_end_char, trim_text};
use zagorakys::tools::{listed_images, order_by_listing};

fn strings(list: &[&str]) -> Vec<String> {
    list.iter().map(|s| s.to_string()).collect()
}

fn files(list: &[&str]) -> Vec<ListedFile> {
    list.iter()
        .map(|path| ListedFile {
            path: path.to_string(),
            extension: path.rsplit_once('.').map(|(_, e)| e.to_string()),
        })
        .collect()
}

#[test]
fn natural_order_compares_numbers_by_value() {
    assert_eq!(natural_cmp("2.jpg", "10.jpg"), Ordering::Less);
    assert_eq!(natural_cmp("10.jpg", "2.jpg"), Ordering::Greater);
    assert_eq!(natural_cmp("vol2 ch10", "vol2 ch9"), Ordering::Greater);
    // Far beyond any integer type.
    let big = "9".repeat(60);
    let bigger = format!("1{}", "0".repeat(60));
    assert_eq!(natural_cmp(&big, &bigger), Ordering::Less);
}

#[test]
fn natural_order_breaks_ties() {
    // Fewer leading zeros first.
    assert_eq!(natural_cmp("1.jpg", "01.jpg"), Ordering::Less);
    assert_eq!(natural_cmp("001", "01"), Ordering::Greater);
    // Letters by lower case, then capitals first.
    assert_eq!(natural_cmp("a.jpg", "B.jpg"), Ordering::Less);
    assert_eq!(natural_cmp("A.jpg", "a.jpg"), Ordering::Less);
    assert_eq!(natural_cmp("Ab", "aa"), Ordering::Greater);
    // A name comes before its longer forms; equal names are equal.
    assert_eq!(natural_cmp("page", "page1"), Ordering::Less);
    assert_eq!(natural_cmp("", "a"), Ordering::Less);
    assert_eq!(natural_cmp("page0", "page00"), Ordering::Less);
    assert_eq!(natural_cmp("page1", "page10"), Ordering::Less);
    assert_eq!(natural_cmp("page1", "page1.jpg"), Ordering::Less);
    assert_eq!(natural_cmp("x01y", "x01y"), Ordering::Equal);
    // A digit against a letter goes by code point.
    assert_eq!(natural_cmp("1a", "aa"), Ordering::Less);
    assert_eq!(natural_cmp("é", "z"), Ordering::Greater);
}

#[test]
fn case_decides_last() {
    assert_eq!(natural_cmp("page1.jpg", "Page2.jpg"), Ordering::Less);
    assert_eq!(natural_cmp("Page2.jpg", "page10.jpg"), Ordering::Less);
    assert_eq!(natural_cmp("PAGE 9b", "page 9A"), Ordering::Greater);
    assert_eq!(natural_cmp("Page1.jpg", "page1.jpg"), Ordering::Less);
    assert_eq!(natural_cmp("pAge1", "Page1"), Ordering::Greater);
    // Fewer leading zeros count for more than case.
    assert_eq!(natural_cmp("p1", "P01"), Ordering::Less);
    assert_eq!(
        sort_naturally(&strings(&["Page10", "page2", "PAGE3", "page1", "Page1"])),
        strings(&["Page1", "page1", "page2", "PAGE3", "Page10"])
    );
}

#[test]
fn sorting_agrees_with_the_standard_sort() {
    let names = strings(&[
        "b2", "b10", "B1", "a", "A", "0", "00", "007", "7", "b2", "z9z", "z10a", "z9", "",
    ]);
    let mut expected = names.clone();
    expected.sort_by(|a, b| natural_cmp(a, b));
    assert_eq!(sort_naturally(&names), expected);
    assert_eq!(sort_naturally(&expected), expected);
    let order = natural_order(&names);
    let taken: Vec<String> = order.iter().map(|&i| names[i].clone()).collect();
    assert_eq!(taken, expected);
    // Equal names keep their places.
    let twins = strings(&["b", "a", "b", "a"]);
    assert_eq!(natural_order(&twins), vec![1, 3, 0, 2]);
}

#[test]
fn out_of_order_lists_are_noticed() {
    assert!(is_zip_out_of_order(&strings(&["10.jpg", "2.jpg"])));
    assert!(!is_zip_out_of_order(&strings(&["2.jpg", "10.jpg"])));
    assert!(!is_zip_out_of_order(&strings(&["a", "a", "b"])));
    assert!(!is_zip_out_of_order(&[]));
    assert!(!is_zip_out_of_order(&strings(&["only"])));
}

#[test]
fn page_names_are_told_by_their_end() {
    assert!(page_name("Cover.JPG"));
    assert!(page_name("dir/01.jpeg"));
    assert!(page_name(".tiff"));
    assert!(!page_name("jpg"));
    assert!(!page_name("page.jpg.txt"));
    assert!(!page_name("ComicInfo.xml"));
}

#[test]
fn sample_names_are_told_by_what_follows_the_last_dot() {
    assert!(is_image_ext("a.b.png"));
    assert!(is_image_ext("jpg"));
    assert!(!is_image_ext("PNG"));
    assert!(!is_image_ext("a.png.bak"));
    assert!(!is_image_ext(""));
    assert!(sample_name("A.PNG"));
    assert!(!sample_name("A.PDF"));
}

#[test]
fn samples_are_spread_evenly() {
    assert_eq!(pick_sample_indices(10, 5), vec![0, 2, 4, 6, 8]);
    assert_eq!(pick_sample_indices(7, 5), vec![0, 1, 2, 4, 5]);
    assert_eq!(pick_sample_indices(3, 5), vec![0, 1, 2]);
    assert_eq!(pick_sample_indices(0, 5), Vec::<usize>::new());
    assert_eq!(pick_sample_indices(9, 0), Vec::<usize>::new());
    assert_eq!(pick_sample_indices(usize::MAX, 2), vec![0, usize::MAX / 2]);
}

#[test]
fn files_are_selected_and_ordered() {
    let dir = files(&["d/10.png", "d/2.PNG", "d/notes.txt", "d/1.ppm", "d/3.gif", "d/none"]);
    assert_eq!(reading_order(Wanted::Pages, &dir), vec![3, 1, 4, 0]);
    assert_eq!(reading_order(Wanted::Pictures, &dir), vec![1, 4, 0]);
    assert_eq!(wanted_files(Wanted::Pictures, &dir), vec![0, 1, 4]);
    assert_eq!(rendered_pages(&dir), Ok(vec![3, 1, 0]));
    assert_eq!(directory_pages(&dir), Ok(vec![3, 1, 4, 0]));
    assert_eq!(middle_picture(&dir), Some(4));
    assert_eq!(sample_pictures(&dir, 2), Some(vec![1, 4]));
    let empty = files(&["d/notes.txt"]);
    assert_eq!(rendered_pages(&empty), Err("PDF rendering produced no images".to_string()));
    assert_eq!(directory_pages(&empty), Err("No images found".to_string()));
    assert_eq!(middle_picture(&empty), None);
    assert_eq!(sample_pictures(&empty, 5), None);
    assert_eq!(extension_or(&dir[1], "jpg"), "PNG");
    assert_eq!(extension_or(&dir[5], "jpg"), "jpg");
}

#[test]
fn comics_are_listed_naturally() {
    let dir = files(&["b 10.cbz", "b 2.CBR", "x.pdf", "y.mobi", "a.zip", "c.rar", "d.jpg"]);
    assert_eq!(
        list_comics(true, &dir),
        Ok(strings(&["a.zip", "b 2.CBR", "b 10.cbz", "c.rar", "x.pdf"]))
    );
    assert_eq!(list_comics(false, &dir), Err("Not a directory".to_string()));
}

#[test]
fn numbered_names_follow_each_other() {
    assert_eq!(numbered_name(0, "jpg"), "0000.jpg");
    assert_eq!(numbered_name(42, "png"), "0042.png");
    assert_eq!(numbered_name(12345, "gif"), "12345.gif");
    assert_eq!(decimal4_text(9999), format!("{:04}", 9999));
    for i in [0usize, 8, 9, 99, 999, 9998, 9999, 10000] {
        assert_eq!(
            natural_cmp(&numbered_name(i, "png"), &numbered_name(i + 1, "jpg")),
            Ordering::Less
        );
    }
}

#[test]
fn pending_names_are_found_by_their_pattern() {
    assert_eq!(pending_name(7, "jpg"), "__tmp_0007.jpg");
    assert_eq!(pending_pattern(7), "__tmp_0007.");
    let names = strings(&["0007.jpg", "__tmp_00070.jpg", "__tmp_0007.jpg", "__tmp_0007.png"]);
    assert_eq!(find_pending(&names, 7), Some(2));
    assert_eq!(find_pending(&names, 8), None);
    for i in 0..20 {
        for j in 0..20 {
            assert_eq!(pending_name(j, "x").starts_with(&pending_pattern(i)), i == j);
            assert_ne!(pending_name(i, "x"), numbered_name(j, "x"));
        }
    }
}

#[test]
fn listings_order_unpacked_pages() {
    let listing = "dir/b.jpg\r\nreadme.txt\ndir/A.PNG\nc.gif";
    assert_eq!(listed_images(listing), strings(&["dir/b.jpg", "dir/A.PNG", "c.gif"]));
    let listed = strings(&["b.jpg", "A.PNG", "c.gif"]);
    let names = strings(&["A.PNG", "zz.jpg", "b.jpg", "c.gif", "aa.jpg"]);
    // Pages that are not listed come last, as they stand.
    assert_eq!(order_by_listing(&listed, &names), vec![2, 0, 3, 1, 4]);
    // Of a name that is listed twice the last place counts.
    let twice = strings(&["a", "b", "a"]);
    assert_eq!(order_by_listing(&twice, &strings(&["a", "b"])), vec![1, 0]);
}

#[test]
fn lines_are_split_like_those_of_std() {
    for text in ["", "a", "a\n", "a\nb", "a\r\nb\r\n", "\n\n", "a\rb\n", "tail\r", "\r\n", "a\n\nb\r"] {
        let expected: Vec<String> = text.lines().map(str::to_string).collect();
        assert_eq!(split_lines(text), expected, "{text:?}");
    }
}

#[test]
fn texts_are_trimmed_like_those_of_std() {
    for text in ["", "  a b ", "\u{3000}x\u{a0}", "...", "a...", " . ", "\u{200b}z\u{2028}", "\u{85}\u{1680}"] {
        assert_eq!(trim_text(text), text.trim(), "{text:?}");
        assert_eq!(trim_end_char(text, '.'), text.trim_end_matches('.'), "{text:?}");
    }
    for v in 0..0x11_0000u32 {
        if let Some(c) = char::from_u32(v) {
            assert_eq!(zagorakys::text::space_char(c), c.is_whitespace(), "{v:x}");
        }
    }
}
