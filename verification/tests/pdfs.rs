use lopdf::{Dictionary, Document, Object, Stream};

use zagorakys::pdf::{
    image_ids, is_encrypted, load_pdf, loading_message, picture_from_samples, place_jpeg, plan_image,
    recompress_pdf_image, save_pdf, ImagePlan, PdfRun, PdfStep, StreamFacts,
};
use zagorakys::picture::{encode_image, peek_image_dimensions};

fn noise(w: u32, h: u32) -> image::DynamicImage {
    let mut img = image::RgbImage::new(w, h);
    let mut v: u32 = 1;
    for p in img.pixels_mut() {
        v = v.wrapping_mul(1_664_525).wrapping_add(1_013_904_223);
        *p = image::Rgb([(v >> 24) as u8, (v >> 16) as u8, (v >> 8) as u8]);
    }
    image::DynamicImage::ImageRgb8(img)
}

fn image_stream(w: i64, h: i64, filter: &str, content: Vec<u8>) -> Stream {
    let mut dict = Dictionary::new();
    dict.set("Subtype", Object::Name(b"Image".to_vec()));
    dict.set("Width", Object::Integer(w));
    dict.set("Height", Object::Integer(h));
    dict.set("BitsPerComponent", Object::Integer(8));
    dict.set("ColorSpace", Object::Name(b"DeviceRGB".to_vec()));
    dict.set("Filter", Object::Name(filter.as_bytes().to_vec()));
    dict.set("DecodeParms", Object::Null);
    Stream::new(dict, content)
}

fn jpeg(w: u32, h: u32) -> Vec<u8> {
    encode_image(noise(w, h), 9999, 9999, 95, false, false, false).unwrap()
}

fn stream_of(doc: &Document, id: (u32, u16)) -> &Stream {
    doc.objects.get(&id).unwrap().as_stream().unwrap()
}

#[test]
fn pictures_are_listed_in_order() {
    let mut doc = Document::with_version("1.5");
    doc.objects.insert((7, 0), Object::Stream(image_stream(1, 1, "DCTDecode", vec![])));
    doc.objects.insert((3, 1), Object::Stream(image_stream(1, 1, "DCTDecode", vec![])));
    doc.objects.insert((3, 0), Object::Stream(image_stream(1, 1, "DCTDecode", vec![])));
    doc.objects.insert((5, 0), Object::Stream(Stream::new(Dictionary::new(), vec![])));
    doc.objects.insert((1, 0), Object::Integer(4));
    assert_eq!(image_ids(&doc), vec![(3, 0), (3, 1), (7, 0)]);
}

#[test]
fn encrypted_documents_are_noticed() {
    let mut doc = Document::with_version("1.5");
    assert!(!is_encrypted(&doc));
    doc.trailer.set("Encrypt", Object::Null);
    assert!(is_encrypted(&doc));
}

#[test]
fn jpeg_streams_are_made_smaller() {
    let mut doc = Document::with_version("1.5");
    let content = jpeg(200, 100);
    let before = content.len();
    let id = doc.add_object(image_stream(200, 100, "DCTDecode", content));
    let other = doc.add_object(Object::Integer(5));
    let saved = recompress_pdf_image(&mut doc, id, 10, true, 80).unwrap();
    let s = stream_of(&doc, id);
    assert_eq!(saved, before as i64 - s.content.len() as i64);
    assert!(saved > 0);
    assert_eq!(peek_image_dimensions(&s.content), Some((80, 40)));
    assert_eq!(s.dict.get(b"Length").unwrap().as_i64().unwrap(), s.content.len() as i64);
    assert_eq!(s.dict.get(b"Width").unwrap().as_i64().unwrap(), 80);
    assert_eq!(s.dict.get(b"Height").unwrap().as_i64().unwrap(), 40);
    assert_eq!(s.dict.get(b"Filter").unwrap().as_name().unwrap(), b"DCTDecode");
    assert_eq!(s.dict.get(b"ColorSpace").unwrap().as_name().unwrap(), b"DeviceGray");
    assert!(s.dict.get(b"DecodeParms").is_err());
    assert!(!s.allows_compression);
    assert_eq!(doc.objects.get(&other), Some(&Object::Integer(5)));
}

#[test]
fn sides_and_colors_are_kept_where_that_is_wanted() {
    let mut doc = Document::with_version("1.5");
    let id = doc.add_object(image_stream(200, 100, "DCTDecode", jpeg(200, 100)));
    assert!(recompress_pdf_image(&mut doc, id, 5, false, 0).unwrap() > 0);
    let s = stream_of(&doc, id);
    assert_eq!(peek_image_dimensions(&s.content), Some((200, 100)));
    assert_eq!(s.dict.get(b"Width").unwrap().as_i64().unwrap(), 200);
    assert_eq!(s.dict.get(b"ColorSpace").unwrap().as_name().unwrap(), b"DeviceRGB");
}

#[test]
fn compressed_samples_are_made_into_jpeg() {
    let mut doc = Document::with_version("1.5");
    let raw: Vec<u8> = noise(100, 90).to_rgb8().into_raw().iter().map(|v| v % 16).collect();
    let mut s = image_stream(100, 90, "FlateDecode", vec![]);
    s.dict.remove(b"Filter");
    s.dict.remove(b"DecodeParms");
    s.set_plain_content(raw);
    s.compress().unwrap();
    assert_eq!(s.dict.get(b"Filter").unwrap().as_name().unwrap(), b"FlateDecode");
    let before = s.content.len();
    let id = doc.add_object(s);
    let saved = recompress_pdf_image(&mut doc, id, 10, true, 0).unwrap();
    let s = stream_of(&doc, id);
    assert_eq!(saved, before as i64 - s.content.len() as i64);
    assert_eq!(peek_image_dimensions(&s.content), Some((100, 90)));
    assert_eq!(s.dict.get(b"Filter").unwrap().as_name().unwrap(), b"DCTDecode");
}

#[test]
fn streams_that_would_grow_stay_as_they_are() {
    let mut doc = Document::with_version("1.5");
    let small = encode_image(noise(80, 80), 9999, 9999, 1, false, true, false).unwrap();
    let id = doc.add_object(image_stream(80, 80, "DCTDecode", small.clone()));
    assert_eq!(recompress_pdf_image(&mut doc, id, 100, false, 0), Ok(0));
    let s = stream_of(&doc, id);
    assert_eq!(s.content, small);
    assert!(s.dict.get(b"DecodeParms").is_ok());
}

#[test]
fn what_cannot_be_made_smaller_is_refused() {
    let mut doc = Document::with_version("1.5");
    let id = doc.add_object(Object::Integer(1));
    let missing = (999, 0);
    for id in [id, missing] {
        assert_eq!(recompress_pdf_image(&mut doc, id, 10, true, 0), Err("Not a stream".to_string()));
    }
    let tiny = doc.add_object(image_stream(63, 500, "DCTDecode", vec![1]));
    assert_eq!(recompress_pdf_image(&mut doc, tiny, 10, true, 0), Ok(0));
    let huge = doc.add_object(image_stream(70_000, 500, "DCTDecode", vec![1]));
    assert_eq!(recompress_pdf_image(&mut doc, huge, 10, true, 0), Ok(0));
    let broken = doc.add_object(image_stream(100, 100, "DCTDecode", vec![1, 2, 3]));
    let e = recompress_pdf_image(&mut doc, broken, 10, true, 0).unwrap_err();
    assert!(e.starts_with("Decode error: "), "{e}");
    let fax = doc.add_object(image_stream(100, 100, "CCITTFaxDecode", vec![1]));
    assert_eq!(recompress_pdf_image(&mut doc, fax, 10, true, 0), Err("Unsupported filter".to_string()));
    let short = doc.add_object(image_stream(100, 100, "FlateDecode", vec![]));
    assert_eq!(recompress_pdf_image(&mut doc, short, 10, true, 0), Err("Data too short".to_string()));
}

fn facts(bits: u32, filter: &str, space: &str) -> StreamFacts {
    StreamFacts {
        width: 100,
        height: 100,
        filter: Some(filter.as_bytes().to_vec()),
        bits,
        color_space: Some(space.as_bytes().to_vec()),
    }
}

#[test]
fn plans_depend_on_what_a_stream_says() {
    assert!(matches!(plan_image(&facts(1, "DCTDecode", "?")), ImagePlan::Jpeg));
    assert!(matches!(plan_image(&facts(8, "FlateDecode", "DeviceRGB")), ImagePlan::Samples(3)));
    assert!(matches!(plan_image(&facts(8, "FlateDecode", "DeviceGray")), ImagePlan::Samples(1)));
    let refused = |f: StreamFacts| match plan_image(&f) {
        ImagePlan::Refuse(e) => e,
        _ => panic!("not refused"),
    };
    assert_eq!(refused(facts(8, "FlateDecode", "DeviceCMYK")), "Unsupported color space");
    assert_eq!(refused(facts(16, "FlateDecode", "DeviceRGB")), "Unsupported BPC: 16");
    assert_eq!(refused(facts(8, "LZWDecode", "DeviceRGB")), "Unsupported filter");
    let mut bare = facts(8, "x", "y");
    bare.filter = None;
    assert_eq!(refused(bare), "Unsupported filter");
    let mut small = facts(8, "DCTDecode", "DeviceRGB");
    small.height = 63;
    assert!(matches!(plan_image(&small), ImagePlan::Keep));
}

#[test]
fn samples_make_pictures() {
    let raw: Vec<u8> = (0..24).collect();
    let img = picture_from_samples(4, 2, 3, &raw).unwrap();
    assert_eq!((img.width(), img.height()), (4, 2));
    assert_eq!(img.to_rgb8().get_pixel(1, 1).0, [15, 16, 17]);
    // More samples than are needed are left.
    let img = picture_from_samples(3, 5, 1, &raw).unwrap();
    assert_eq!(img.to_luma8().get_pixel(2, 4).0, [14]);
    assert_eq!(picture_from_samples(5, 2, 3, &raw).unwrap_err(), "Data too short");
}

#[test]
fn runs_count_what_they_save() {
    let mut doc = Document::with_version("1.5");
    doc.add_object(image_stream(200, 100, "DCTDecode", jpeg(200, 100)));
    doc.add_object(image_stream(100, 100, "JPXDecode", vec![1]));
    let mut run = PdfRun::new(&doc);
    let found = run.found();
    assert_eq!((found.current, found.total, found.message.as_str()), (0, 2, "Found 2 images in PDF"));
    assert!(matches!(run.step(&mut doc, true, 10, true, 0), PdfStep::Cancelled));
    assert_eq!(run.next, 0);
    match run.step(&mut doc, false, 10, true, 0) {
        PdfStep::Working(p) => {
            assert_eq!((p.current, p.total, p.message.as_str()), (1, 2, "Optimizing 1/2"));
        }
        _ => panic!("not working"),
    }
    let saved = run.saved;
    assert!(saved > 0);
    assert!(matches!(run.step(&mut doc, false, 10, true, 0), PdfStep::Working(_)));
    assert_eq!((run.optimized, run.saved), (1, saved));
    match run.step(&mut doc, true, 10, true, 0) {
        PdfStep::Saving(p) => {
            let size = zagorakys::size::format_size(saved as usize);
            assert_eq!(p.message, format!("Saving PDF (1 images optimized, saved ~{size})"));
            assert_eq!((p.current, p.total), (2, 2));
        }
        _ => panic!("not saving"),
    }
}

#[test]
fn runs_change_only_pictures() {
    let mut doc = Document::with_version("1.5");
    let large = doc.add_object(image_stream(200, 100, "DCTDecode", jpeg(200, 100)));
    let broken = doc.add_object(image_stream(90, 90, "DCTDecode", vec![1, 2, 3]));
    let plain = doc.add_object(Stream::new(Dictionary::new(), jpeg(50, 50)));
    let number = doc.add_object(Object::Integer(4));
    let start = doc.clone();
    let mut run = PdfRun::new(&doc);
    let ids = run.ids.clone();
    while let PdfStep::Working(_) = run.step(&mut doc, false, 10, false, 0) {}
    assert_eq!((run.ids.clone(), image_ids(&doc)), (ids.clone(), ids));
    for id in [broken, plain, number] {
        assert_eq!(doc.objects.get(&id), start.objects.get(&id));
    }
    assert_eq!(doc.trailer, start.trailer);
    let (old, new) = (stream_of(&start, large), stream_of(&doc, large));
    assert!(new.content.len() < old.content.len());
    assert_eq!(new.dict.get(b"Filter").unwrap().as_name().unwrap(), b"DCTDecode");
    assert_eq!(run.optimized, 1);
    assert_eq!(run.saved, (old.content.len() - new.content.len()) as u128);
}

#[test]
fn long_documents_are_worth_a_word() {
    assert_eq!(loading_message(499), "Loading PDF...");
    assert_eq!(
        loading_message(500),
        "Loading PDF (500 pages, this can take a while)..."
    );
}

#[test]
fn encoded_pictures_are_put_where_they_are_smaller() {
    let mut doc = Document::with_version("1.5");
    let id = doc.add_object(image_stream(100, 100, "FlateDecode", vec![9; 10]));
    assert_eq!(place_jpeg(&mut doc, id, Ok(vec![1; 10]), None, true), Ok(0));
    assert_eq!(stream_of(&doc, id).content, vec![9; 10]);
    assert_eq!(
        place_jpeg(&mut doc, id, Err("odd".to_string()), None, true),
        Err("JPEG encode error: odd".to_string())
    );
    assert_eq!(place_jpeg(&mut doc, id, Ok(vec![1; 4]), Some((50, 40)), false), Ok(6));
    let s = stream_of(&doc, id);
    assert_eq!(s.content, vec![1; 4]);
    assert_eq!(s.dict.get(b"Width").unwrap().as_i64().unwrap(), 50);
    assert_eq!(s.dict.get(b"Height").unwrap().as_i64().unwrap(), 40);
    assert_eq!(s.dict.get(b"Length").unwrap().as_i64().unwrap(), 4);
    assert_eq!(s.dict.get(b"ColorSpace").unwrap().as_name().unwrap(), b"DeviceRGB");
    assert_eq!(
        place_jpeg(&mut doc, (99, 0), Ok(vec![]), None, true),
        Err("Not a stream".to_string())
    );
}

#[test]
fn documents_are_loaded_and_saved() {
    let mut doc = Document::with_version("1.5");
    let id = doc.add_object(image_stream(200, 100, "DCTDecode", jpeg(200, 100)));
    let pages = doc.new_object_id();
    let mut page = Dictionary::new();
    page.set("Type", Object::Name(b"Page".to_vec()));
    page.set("Parent", Object::Reference(pages));
    let page = doc.add_object(page);
    let mut tree = Dictionary::new();
    tree.set("Type", Object::Name(b"Pages".to_vec()));
    tree.set("Kids", Object::Array(vec![Object::Reference(page)]));
    tree.set("Count", Object::Integer(1));
    doc.objects.insert(pages, Object::Dictionary(tree));
    let mut catalog = Dictionary::new();
    catalog.set("Type", Object::Name(b"Catalog".to_vec()));
    catalog.set("Pages", Object::Reference(pages));
    let catalog = doc.add_object(catalog);
    doc.trailer.set("Root", Object::Reference(catalog));

    let data = save_pdf(doc).unwrap();
    let mut doc = load_pdf(&data, false).unwrap();
    assert_eq!(image_ids(&doc), vec![id]);
    let saved = recompress_pdf_image(&mut doc, id, 10, true, 0).unwrap();
    assert!(saved > 0);
    let smaller = save_pdf(doc).unwrap();
    assert!(smaller.len() < data.len());
    let doc = load_pdf(&smaller, true).unwrap();
    assert_eq!(peek_image_dimensions(&stream_of(&doc, id).content), Some((200, 100)));

    assert!(load_pdf(b"nothing", false).unwrap_err().starts_with("Cannot load PDF: "));
    assert!(load_pdf(b"nothing", true).unwrap_err().starts_with("Cannot load decrypted PDF: "));
}
