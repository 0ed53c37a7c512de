//! Making PDF files smaller by encoding the pictures in them anew.

use crate::picture::{
    Layout, PageStyle, Picture, decode_image, dimensions, encode_jpeg, gray_image, prepare_image,
    rgb_image,
};
use crate::names;
use crate::natural;
use crate::picture;
use crate::progress::{ConvertProgress, report_count};
use crate::progress;
use crate::size::format_size;
use crate::size;
use crate::sniff;
use crate::text::{decimal_text, join, join3};
use crate::text;
use lopdf::Document;
use vstd::prelude::*;
use vstd::utf8::*;

verus! {

// ---------------------------------------------------------------------------
// The lopdf crate
// ---------------------------------------------------------------------------

#[verifier::external_type_specification]
#[verifier::external_body]
pub struct ExDocument(lopdf::Document);

/// A value in a dictionary.
pub enum PdfValue {
    Integer(i64),
    Name(Seq<u8>),
    Other(int),
}

/// A stream: a dictionary with content. The order of the entries is left out.
pub struct PdfStream {
    pub dict: Map<Seq<u8>, PdfValue>,
    pub content: Seq<u8>,
    pub compressible: bool,
    pub start: Option<usize>,
}

/// An object of a document.
pub enum PdfObject {
    Stream(PdfStream),
    Other(int),
}

/// The objects of a document.
pub uninterp spec fn pdf_objects(doc: Document) -> Map<(u32, u16), PdfObject>;

/// The entries of the trailer of a document.
pub uninterp spec fn pdf_trailer(doc: Document) -> Map<Seq<u8>, PdfValue>;

/// The content that `Stream::decompress` leaves in a stream; it depends on the
/// stream alone.
pub uninterp spec fn inflated(s: PdfStream) -> Seq<u8>;

/// The objects and the trailer of a document, as plain values.
pub open spec fn document_view(r: Result<Document, String>) -> Result<
    (Map<(u32, u16), PdfObject>, Map<Seq<u8>, PdfValue>),
    Seq<char>,
> {
    match r {
        Ok(doc) => Ok((pdf_objects(doc), pdf_trailer(doc))),
        Err(e) => Err(e@),
    }
}

/// Whether loading a document from bytes may give the outcome. Large documents
/// are read by several threads.
pub uninterp spec fn loads_as(
    data: Seq<u8>,
    outcome: Result<(Map<(u32, u16), PdfObject>, Map<Seq<u8>, PdfValue>), Seq<char>>,
) -> bool;

/// Whether saving a document with these objects and this trailer may give the
/// outcome. What else a document holds, such as its version, is left out.
pub uninterp spec fn saves_as(
    objects: Map<(u32, u16), PdfObject>,
    trailer: Map<Seq<u8>, PdfValue>,
    outcome: Result<Seq<u8>, Seq<char>>,
) -> bool;

/// Whether an object is a stream.
pub open spec fn has_stream(doc: Document, id: (u32, u16)) -> bool {
    pdf_objects(doc).contains_key(id) && pdf_objects(doc)[id] is Stream
}

/// The stream with an id.
pub open spec fn stream_at(doc: Document, id: (u32, u16)) -> PdfStream {
    pdf_objects(doc)[id]->Stream_0
}

/// `after` is `before` with `s` for the stream with an id.
pub open spec fn stream_replaced(
    before: Document,
    after: Document,
    id: (u32, u16),
    s: PdfStream,
) -> bool {
    &&& pdf_objects(after) == pdf_objects(before).insert(id, PdfObject::Stream(s))
    &&& pdf_trailer(after) == pdf_trailer(before)
}

/// The name that a dictionary has for a key.
pub open spec fn name_in(dict: Map<Seq<u8>, PdfValue>, key: Seq<char>) -> Option<Seq<u8>> {
    if dict.contains_key(encode_utf8(key)) && dict[encode_utf8(key)] is Name {
        Some(dict[encode_utf8(key)]->Name_0)
    } else {
        None
    }
}

/// The integer that a dictionary has for a key.
pub open spec fn integer_in(dict: Map<Seq<u8>, PdfValue>, key: Seq<char>) -> Option<i64> {
    if dict.contains_key(encode_utf8(key)) && dict[encode_utf8(key)] is Integer {
        Some(dict[encode_utf8(key)]->Integer_0)
    } else {
        None
    }
}

/// Whether one id comes before another: by number, then by generation.
pub open spec fn id_lt(a: (u32, u16), b: (u32, u16)) -> bool {
    a.0 < b.0 || (a.0 == b.0 && a.1 < b.1)
}

/// Whether ids ascend.
pub open spec fn ids_ascend(ids: Seq<(u32, u16)>) -> bool {
    forall|i: int, j: int| 0 <= i < j < ids.len() ==> id_lt(#[trigger] ids[i], #[trigger] ids[j])
}

/// `Document::load_mem`: reads a document.
#[verifier::external_body]
fn load_document(data: &[u8]) -> (r: Result<Document, String>)
    ensures
        loads_as(data@, document_view(r)),
{
    Document::load_mem(data).map_err(|e| e.to_string())
}

/// `Document::save_to` into memory.
#[verifier::external_body]
fn save_document(mut doc: Document) -> (r: Result<Vec<u8>, String>)
    ensures
        saves_as(pdf_objects(doc), pdf_trailer(doc), picture::bytes_view(r)),
{
    let mut data = Vec::new();
    doc.save_to(&mut data).map_err(|e| e.to_string())?;
    Ok(data)
}

/// `Document::objects`: a sorted map, so its keys come in ascending order.
#[verifier::external_body]
fn object_ids(doc: &Document) -> (ids: Vec<(u32, u16)>)
    ensures
        ids_ascend(ids@),
        forall|id: (u32, u16)| #[trigger]
            ids@.contains(id) <==> pdf_objects(*doc).contains_key(id),
{
    doc.objects.keys().copied().collect()
}

/// `Object::as_stream` and `Stream::content`: the length of the content of a
/// stream, none where the object is no stream. No vector is longer than
/// `isize::MAX`.
#[verifier::external_body]
fn content_len(doc: &Document, id: (u32, u16)) -> (r: Option<usize>)
    ensures
        (r is Some) == has_stream(*doc, id),
        r is Some ==> r->0 == stream_at(*doc, id).content.len(),
        r is Some ==> r->0 <= isize::MAX,
{
    doc.objects.get(&id).and_then(|o| o.as_stream().ok()).map(|s| s.content.len())
}

/// `Dictionary::get` and `Object::as_i64` on the dictionary of a stream.
#[verifier::external_body]
fn stream_integer(doc: &Document, id: (u32, u16), key: &str) -> (r: Option<i64>)
    requires
        has_stream(*doc, id),
    ensures
        r == integer_in(stream_at(*doc, id).dict, key@),
{
    doc.objects.get(&id)?.as_stream().ok()?.dict.get(key.as_bytes()).ok()?.as_i64().ok()
}

/// `Dictionary::get` and `Object::as_name` on the dictionary of a stream.
#[verifier::external_body]
fn stream_name(doc: &Document, id: (u32, u16), key: &str) -> (r: Option<Vec<u8>>)
    requires
        has_stream(*doc, id),
    ensures
        (match r {
            Some(v) => Some(v@),
            None => None,
        }) == name_in(stream_at(*doc, id).dict, key@),
{
    let dict = &doc.objects.get(&id)?.as_stream().ok()?.dict;
    dict.get(key.as_bytes()).ok()?.as_name().ok().map(|n| n.to_vec())
}

/// `Stream::content`: a copy of the content of a stream.
#[verifier::external_body]
fn stream_content(doc: &Document, id: (u32, u16)) -> (r: Option<Vec<u8>>)
    requires
        has_stream(*doc, id),
    ensures
        r is Some,
        r->0@ == stream_at(*doc, id).content,
{
    Some(doc.objects.get(&id)?.as_stream().ok()?.content.clone())
}

/// `Stream::decompress` on a copy of a stream: the content that it leaves, which
/// is the old one where it fails.
#[verifier::external_body]
fn inflated_content(doc: &Document, id: (u32, u16)) -> (r: Option<Vec<u8>>)
    requires
        has_stream(*doc, id),
    ensures
        r is Some,
        r->0@ == inflated(stream_at(*doc, id)),
{
    let mut stream = doc.objects.get(&id)?.as_stream().ok()?.clone();
    let _ = stream.decompress();
    Some(stream.content)
}

/// `Stream::content`: gives a stream another content.
#[verifier::external_body]
fn set_content(doc: &mut Document, id: (u32, u16), content: Vec<u8>)
    requires
        has_stream(*old(doc), id),
    ensures
        stream_replaced(
            *old(doc),
            *final(doc),
            id,
            (PdfStream { content: content@, ..stream_at(*old(doc), id) }),
        ),
{
    doc.objects.get_mut(&id).and_then(|o| o.as_stream_mut().ok()).map(|s| s.content = content);
}

/// `Dictionary::set` with an integer on the dictionary of a stream.
#[verifier::external_body]
fn set_integer(doc: &mut Document, id: (u32, u16), key: &str, value: i64)
    requires
        has_stream(*old(doc), id),
    ensures
        stream_replaced(
            *old(doc),
            *final(doc),
            id,
            (PdfStream {
                dict: stream_at(*old(doc), id).dict.insert(
                    encode_utf8(key@),
                    PdfValue::Integer(value),
                ),
                ..stream_at(*old(doc), id)
            }),
        ),
{
    let object = lopdf::Object::Integer(value);
    doc.objects.get_mut(&id).and_then(|o| o.as_stream_mut().ok()).map(|s| s.dict.set(key, object));
}

/// `Dictionary::set` with a name on the dictionary of a stream.
#[verifier::external_body]
fn set_name(doc: &mut Document, id: (u32, u16), key: &str, value: &str)
    requires
        has_stream(*old(doc), id),
    ensures
        stream_replaced(
            *old(doc),
            *final(doc),
            id,
            (PdfStream {
                dict: stream_at(*old(doc), id).dict.insert(
                    encode_utf8(key@),
                    PdfValue::Name(encode_utf8(value@)),
                ),
                ..stream_at(*old(doc), id)
            }),
        ),
{
    let object = lopdf::Object::Name(value.as_bytes().to_vec());
    doc.objects.get_mut(&id).and_then(|o| o.as_stream_mut().ok()).map(|s| s.dict.set(key, object));
}

/// `Dictionary::remove` on the dictionary of a stream.
#[verifier::external_body]
fn remove_entry(doc: &mut Document, id: (u32, u16), key: &str)
    requires
        has_stream(*old(doc), id),
    ensures
        stream_replaced(
            *old(doc),
            *final(doc),
            id,
            (PdfStream {
                dict: stream_at(*old(doc), id).dict.remove(encode_utf8(key@)),
                ..stream_at(*old(doc), id)
            }),
        ),
{
    let stream = doc.objects.get_mut(&id).and_then(|o| o.as_stream_mut().ok());
    stream.map(|s| s.dict.remove(key.as_bytes()));
}

/// `Stream::allows_compression`: keeps a stream from being compressed on saving.
#[verifier::external_body]
fn forbid_compression(doc: &mut Document, id: (u32, u16))
    requires
        has_stream(*old(doc), id),
    ensures
        stream_replaced(
            *old(doc),
            *final(doc),
            id,
            (PdfStream { compressible: false, ..stream_at(*old(doc), id) }),
        ),
{
    doc.objects.get_mut(&id).and_then(|o| o.as_stream_mut().ok()).map(|s| s.allows_compression = false);
}

/// `Dictionary::get` on `Document::trailer`.
#[verifier::external_body]
fn trailer_has(doc: &Document, key: &str) -> (r: bool)
    ensures
        r == pdf_trailer(*doc).contains_key(encode_utf8(key@)),
{
    doc.trailer.get(key.as_bytes()).is_ok()
}

// ---------------------------------------------------------------------------
// Loading and saving
// ---------------------------------------------------------------------------

/// Why a document could not be loaded.
pub open spec fn load_failure(decrypted: bool) -> Seq<char> {
    if decrypted {
        "Cannot load decrypted PDF: "@
    } else {
        "Cannot load PDF: "@
    }
}

/// `outcome` is what loading a document may give.
pub open spec fn load_outcome(
    data: Seq<u8>,
    decrypted: bool,
    outcome: Result<(Map<(u32, u16), PdfObject>, Map<Seq<u8>, PdfValue>), Seq<char>>,
) -> bool {
    match outcome {
        Ok(parts) => loads_as(data, Ok(parts)),
        Err(text) => exists|e: Seq<char>| #[trigger]
            loads_as(data, Err(e)) && text == load_failure(decrypted) + e,
    }
}

/// Loads a document, given its bytes; `decrypted` says that it was encrypted and
/// another program has decrypted it.
pub fn load_pdf(data: &[u8], decrypted: bool) -> (r: Result<Document, String>)
    ensures
        load_outcome(data@, decrypted, document_view(r)),
{
    let loaded = load_document(data);
    assert(loads_as(data@, document_view(loaded)));
    match loaded {
        Ok(doc) => Ok(doc),
        Err(e) => Err(
            join(
                if decrypted {
                    "Cannot load decrypted PDF: "
                } else {
                    "Cannot load PDF: "
                },
                e.as_str(),
            ),
        ),
    }
}

/// The bytes of a document.
pub fn save_pdf(doc: Document) -> (r: Result<Vec<u8>, String>)
    ensures
        match r {
            Ok(data) => saves_as(pdf_objects(doc), pdf_trailer(doc), Ok(data@)),
            Err(text) => exists|e: Seq<char>| #[trigger]
                saves_as(pdf_objects(doc), pdf_trailer(doc), Err(e)) && text@
                    == "Cannot save PDF: "@ + e,
        },
{
    let ghost parts = (pdf_objects(doc), pdf_trailer(doc));
    let saved = save_document(doc);
    assert(saves_as(parts.0, parts.1, picture::bytes_view(saved)));
    match saved {
        Ok(data) => Ok(data),
        Err(e) => Err(join("Cannot save PDF: ", e.as_str())),
    }
}

// ---------------------------------------------------------------------------
// Pictures in a document
// ---------------------------------------------------------------------------

/// Whether a document is encrypted, so that its streams cannot be read as they
/// stand.
pub fn is_encrypted(doc: &Document) -> (r: bool)
    ensures
        r == pdf_trailer(*doc).contains_key(encode_utf8("Encrypt"@)),
{
    trailer_has(doc, "Encrypt")
}

/// Whether an object is a picture.
pub open spec fn is_image(o: PdfObject) -> bool {
    o is Stream && name_in(o->Stream_0.dict, "Subtype"@) == Some(encode_utf8("Image"@))
}

/// Whether `ids` lists the pictures of a document, each once, in ascending order.
pub open spec fn lists_images(objects: Map<(u32, u16), PdfObject>, ids: Seq<(u32, u16)>) -> bool {
    &&& ids_ascend(ids)
    &&& forall|id: (u32, u16)| #[trigger]
        ids.contains(id) <==> objects.contains_key(id) && is_image(objects[id])
}

/// Whether bytes are those of a text.
fn is_text(bytes: &Vec<u8>, s: &str) -> (r: bool)
    ensures
        r == (bytes@ == encode_utf8(s@)),
{
    let t = s.as_bytes();
    if bytes.len() != t.len() {
        return false;
    }
    let mut i: usize = 0;
    while i < t.len()
        invariant
            i <= t@.len() == bytes@.len(),
            t@ == encode_utf8(s@),
            forall|k: int| 0 <= k < i ==> bytes@[k] == #[trigger] t@[k],
        decreases t.len() - i,
    {
        if bytes[i] != t[i] {
            return false;
        }
        i += 1;
    }
    assert(bytes@ =~= t@);
    true
}

/// The pictures of a document.
pub fn image_ids(doc: &Document) -> (ids: Vec<(u32, u16)>)
    ensures
        lists_images(pdf_objects(*doc), ids@),
{
    let all = object_ids(doc);
    let ghost objects = pdf_objects(*doc);
    let mut ids: Vec<(u32, u16)> = Vec::new();
    let mut i: usize = 0;
    while i < all.len()
        invariant
            i <= all@.len(),
            objects == pdf_objects(*doc),
            ids_ascend(all@),
            ids_ascend(ids@),
            forall|id: (u32, u16)| #[trigger] all@.contains(id) <==> objects.contains_key(id),
            forall|k: int, j: int|
                0 <= k < ids@.len() && i <= j < all@.len() ==> id_lt(
                    #[trigger] ids@[k],
                    #[trigger] all@[j],
                ),
            forall|k: int|
                0 <= k < ids@.len() ==> objects.contains_key(#[trigger] ids@[k]) && is_image(
                    objects[ids@[k]],
                ),
            forall|j: int|
                0 <= j < i && is_image(objects[#[trigger] all@[j]]) ==> ids@.contains(all@[j]),
        decreases all.len() - i,
    {
        let id = all[i];
        assert(all@.contains(all@[i as int]));
        let mut image: bool = false;
        if content_len(doc, id).is_some() {
            if let Some(subtype) = stream_name(doc, id, "Subtype") {
                image = is_text(&subtype, "Image");
            }
        }
        assert(image == is_image(objects[id]));
        let ghost before = ids@;
        if image {
            ids.push(id);
            assert(ids@[before.len() as int] == id);
            assert forall|j: int|
                0 <= j < i + 1 && is_image(objects[#[trigger] all@[j]]) implies ids@.contains(all@[j]) by {
                if j < i {
                    let k = choose|k: int| 0 <= k < before.len() && before[k] == all@[j];
                    assert(ids@[k] == all@[j]);
                }
            }
        }
        i += 1;
    }
    assert forall|id: (u32, u16)| #[trigger] ids@.contains(id) implies objects.contains_key(id)
        && is_image(objects[id]) by {
        let k = choose|k: int| 0 <= k < ids@.len() && ids@[k] == id;
        assert(objects.contains_key(ids@[k]));
    }
    assert forall|id: (u32, u16)| objects.contains_key(id) && is_image(objects[id]) implies #[trigger] ids@.contains(
        id,
    ) by {
        assert(all@.contains(id));
        let j = choose|j: int| 0 <= j < all@.len() && all@[j] == id;
        assert(is_image(objects[all@[j]]));
    }
    ids
}

// ---------------------------------------------------------------------------
// What is done with a picture
// ---------------------------------------------------------------------------

/// What a picture stream says of itself.
pub struct StreamFacts {
    pub width: u32,
    pub height: u32,
    pub filter: Option<Vec<u8>>,
    pub bits: u32,
    pub color_space: Option<Vec<u8>>,
}

/// Optional bytes, as plain values.
pub open spec fn optional(v: Option<Vec<u8>>) -> Option<Seq<u8>> {
    match v {
        Some(b) => Some(b@),
        None => None,
    }
}

/// The side that an entry gives: from 1 to 65535, else 0.
pub open spec fn side(entry: Option<i64>) -> u32 {
    match entry {
        Some(v) => if 0 < v <= 65535 {
            v as u32
        } else {
            0
        },
        None => 0,
    }
}

/// The bits for each sample that an entry gives, 8 where there is none.
pub open spec fn sample_bits(entry: Option<i64>) -> u32 {
    match entry {
        Some(v) => v as u32,
        None => 8,
    }
}

/// Whether facts are those of a stream.
pub open spec fn states(dict: Map<Seq<u8>, PdfValue>, f: StreamFacts) -> bool {
    &&& f.width == side(integer_in(dict, "Width"@))
    &&& f.height == side(integer_in(dict, "Height"@))
    &&& optional(f.filter) == name_in(dict, "Filter"@)
    &&& f.bits == sample_bits(integer_in(dict, "BitsPerComponent"@))
    &&& optional(f.color_space) == name_in(dict, "ColorSpace"@)
}

/// What is done with a picture.
pub enum ImagePlan {
    /// It is too small to matter.
    Keep,
    /// It is of a form that is not understood.
    Refuse(String),
    /// It is a JPEG file.
    Jpeg,
    /// It is compressed samples, so many for each pixel.
    Samples(u32),
}

/// Whether a plan is the right one for a picture.
pub open spec fn is_plan(f: StreamFacts, plan: ImagePlan) -> bool {
    if f.width < 64 || f.height < 64 {
        plan is Keep
    } else if optional(f.filter) == Some(encode_utf8("DCTDecode"@)) {
        plan is Jpeg
    } else if optional(f.filter) != Some(encode_utf8("FlateDecode"@)) {
        plan is Refuse && plan->Refuse_0@ == "Unsupported filter"@
    } else if f.bits != 8 {
        plan is Refuse && plan->Refuse_0@ == "Unsupported BPC: "@ + text::decimal(f.bits as nat)
    } else if optional(f.color_space) == Some(encode_utf8("DeviceRGB"@)) {
        plan == ImagePlan::Samples(3)
    } else if optional(f.color_space) == Some(encode_utf8("DeviceGray"@)) {
        plan == ImagePlan::Samples(1)
    } else {
        plan is Refuse && plan->Refuse_0@ == "Unsupported color space"@
    }
}

fn named(v: &Option<Vec<u8>>, s: &str) -> (r: bool)
    ensures
        r == (optional(*v) == Some(encode_utf8(s@))),
{
    match v {
        Some(b) => is_text(b, s),
        None => false,
    }
}

/// What is done with a picture, by what it says of itself.
pub fn plan_image(f: &StreamFacts) -> (plan: ImagePlan)
    ensures
        is_plan(*f, plan),
{
    if f.width < 64 || f.height < 64 {
        return ImagePlan::Keep;
    }
    proof {
        reveal_strlit("DCTDecode");
        reveal_strlit("FlateDecode");
        reveal_strlit("DeviceRGB");
        reveal_strlit("DeviceGray");
        broadcast use encode_utf8_decode_utf8;

        assert(decode_utf8(encode_utf8("DCTDecode"@)).len() == 9);
        assert(decode_utf8(encode_utf8("FlateDecode"@)).len() == 11);
        assert(decode_utf8(encode_utf8("DeviceRGB"@)).len() == 9);
        assert(decode_utf8(encode_utf8("DeviceGray"@)).len() == 10);
    }
    if named(&f.filter, "DCTDecode") {
        ImagePlan::Jpeg
    } else if !named(&f.filter, "FlateDecode") {
        ImagePlan::Refuse("Unsupported filter".to_owned())
    } else if f.bits != 8 {
        ImagePlan::Refuse(join("Unsupported BPC: ", decimal_text(f.bits as u64).as_str()))
    } else if named(&f.color_space, "DeviceRGB") {
        ImagePlan::Samples(3)
    } else if named(&f.color_space, "DeviceGray") {
        ImagePlan::Samples(1)
    } else {
        ImagePlan::Refuse("Unsupported color space".to_owned())
    }
}

/// The picture that samples make, or why they make none.
pub open spec fn sampled_picture(width: u32, height: u32, channels: u32, raw: Seq<u8>) -> Result<
    Picture,
    Seq<char>,
> {
    let expected = width * height * channels;
    if expected > usize::MAX {
        Err("Image dimensions overflow"@)
    } else if raw.len() < expected {
        Err("Data too short"@)
    } else {
        Ok(
            Picture {
                width,
                height,
                layout: if channels == 3 {
                    Layout::Rgb8
                } else {
                    Layout::Gray8
                },
                samples: raw.take(expected),
            },
        )
    }
}

/// The picture that samples make: three for each pixel in color, else one.
pub fn picture_from_samples(width: u32, height: u32, channels: u32, raw: &Vec<u8>) -> (r: Result<
    image::DynamicImage,
    String,
>)
    requires
        width <= 65535,
        height <= 65535,
        channels == 1 || channels == 3,
    ensures
        picture::picture_view(r) == sampled_picture(width, height, channels, raw@),
        r is Ok ==> picture::is_full(picture::picture(r->Ok_0)),
{
    assert(width * height <= 65535 * 65535) by (nonlinear_arith)
        requires
            width <= 65535,
            height <= 65535,
    ;
    let pixels: u64 = width as u64 * height as u64;
    assert(width * height * channels == pixels * channels);
    let needed: u64 = if channels == 3 {
        pixels * 3
    } else {
        pixels
    };
    if needed > usize::MAX as u64 {
        return Err("Image dimensions overflow".to_owned());
    }
    if (raw.len() as u64) < needed {
        return Err("Data too short".to_owned());
    }
    let samples = vstd::slice::slice_to_vec(
        vstd::slice::slice_subrange(raw.as_slice(), 0, needed as usize),
    );
    assert(samples@ =~= raw@.take(needed as int));
    if channels == 3 {
        match rgb_image(width, height, samples) {
            Some(img) => Ok(img),
            None => Err("Cannot create RGB image".to_owned()),
        }
    } else {
        match gray_image(width, height, samples) {
            Some(img) => Ok(img),
            None => Err("Cannot create gray image".to_owned()),
        }
    }
}

// ---------------------------------------------------------------------------
// Encoding a picture anew
// ---------------------------------------------------------------------------

/// A stream with a JPEG file for its content: the entries that describe it are
/// kept in step. `size` is its new size where that changed.
pub open spec fn with_jpeg(
    s: PdfStream,
    jpeg: Seq<u8>,
    size: Option<(u32, u32)>,
    grayscale: bool,
) -> PdfStream {
    let described = s.dict.insert(
        encode_utf8("Length"@),
        PdfValue::Integer(jpeg.len() as i64),
    ).insert(encode_utf8("Filter"@), PdfValue::Name(encode_utf8("DCTDecode"@))).remove(
        encode_utf8("DecodeParms"@),
    );
    let sized = match size {
        Some((w, h)) => described.insert(
            encode_utf8("Width"@),
            PdfValue::Integer(w as i64),
        ).insert(encode_utf8("Height"@), PdfValue::Integer(h as i64)),
        None => described,
    };
    let dict = if grayscale {
        sized.insert(encode_utf8("ColorSpace"@), PdfValue::Name(encode_utf8("DeviceGray"@)))
    } else {
        sized
    };
    PdfStream { dict, content: jpeg, compressible: false, ..s }
}

/// How the pictures of a document are made anew: they are fitted into a square
/// where a limit is set.
pub open spec fn pdf_style(p: Picture, quality: u8, grayscale: bool, limit: u32) -> PageStyle {
    PageStyle {
        width: limit,
        height: limit,
        quality,
        contrast: false,
        grayscale,
        resize: limit > 0 && picture::exceeds(p, limit, limit),
    }
}

/// `t` and `r` are what is made of a stream and what is answered, where its
/// picture was encoded anew: it is replaced where that makes it smaller. `size`
/// is the size of the new picture where that changed.
pub open spec fn replaced(
    s: PdfStream,
    encoded: Result<Seq<u8>, Seq<char>>,
    size: Option<(u32, u32)>,
    grayscale: bool,
    r: Result<i64, Seq<char>>,
    t: PdfStream,
) -> bool {
    match encoded {
        Err(e) => t == s && r == Err::<i64, Seq<char>>("JPEG encode error: "@ + e),
        Ok(jpeg) => if jpeg.len() >= s.content.len() {
            t == s && r == Ok::<i64, Seq<char>>(0)
        } else {
            &&& r is Ok && r->Ok_0 == s.content.len() - jpeg.len()
            &&& t == with_jpeg(s, jpeg, size, grayscale)
        },
    }
}

/// The size of a picture that was fitted, none of one that was not.
pub open spec fn new_size(style: PageStyle, q: Picture) -> Option<(u32, u32)> {
    if style.resize {
        Some((q.width, q.height))
    } else {
        None
    }
}

/// `t` and `r` are what is made of a stream and what is answered, where its
/// picture is `p`.
pub open spec fn remade(
    s: PdfStream,
    p: Picture,
    quality: u8,
    grayscale: bool,
    limit: u32,
    r: Result<i64, Seq<char>>,
    t: PdfStream,
) -> bool {
    let style = pdf_style(p, quality, grayscale, limit);
    exists|q: Picture, encoded: Result<Seq<u8>, Seq<char>>| #[trigger]
        picture::prepared(p, style, q) && #[trigger] picture::encodes_to(q, quality, encoded) && picture::jpeg_or_error(
            q,
            encoded,
        ) && replaced(s, encoded, new_size(style, q), grayscale, r, t)
}

/// `t` and `r` are what is made of a picture stream and what is answered: how
/// many bytes were saved, or why it stays as it is.
pub open spec fn recompressed(
    s: PdfStream,
    quality: u8,
    grayscale: bool,
    limit: u32,
    r: Result<i64, Seq<char>>,
    t: PdfStream,
) -> bool {
    exists|f: StreamFacts, plan: ImagePlan| #[trigger]
        states(s.dict, f) && #[trigger] is_plan(f, plan) && match plan {
            ImagePlan::Keep => t == s && r == Ok::<i64, Seq<char>>(0),
            ImagePlan::Refuse(e) => t == s && r == Err::<i64, Seq<char>>(e@),
            ImagePlan::Jpeg => exists|d: Result<Picture, Seq<char>>| #[trigger]
                picture::decode_outcome(s.content, d) && made_of(s, d, quality, grayscale, limit, r, t),
            ImagePlan::Samples(n) => made_of(
                s,
                sampled_picture(f.width, f.height, n, inflated(s)),
                quality,
                grayscale,
                limit,
                r,
                t,
            ),
        }
}

/// `t` and `r` are what is made of a stream and what is answered, where decoding
/// gave `d`.
pub open spec fn made_of(
    s: PdfStream,
    d: Result<Picture, Seq<char>>,
    quality: u8,
    grayscale: bool,
    limit: u32,
    r: Result<i64, Seq<char>>,
    t: PdfStream,
) -> bool {
    match d {
        Ok(p) => remade(s, p, quality, grayscale, limit, r, t),
        Err(e) => t == s && r == Err::<i64, Seq<char>>(e),
    }
}

/// A stream never grows, and the answer is by how much it shrank; where it is
/// none, or a failure, the stream stays as it is.
pub proof fn recompressing_never_grows(
    s: PdfStream,
    quality: u8,
    grayscale: bool,
    limit: u32,
    r: Result<i64, Seq<char>>,
    t: PdfStream,
)
    requires
        recompressed(s, quality, grayscale, limit, r, t),
    ensures
        t.content.len() <= s.content.len(),
        r is Ok ==> r->Ok_0 == s.content.len() - t.content.len(),
        r is Err || r->Ok_0 == 0 ==> t == s,
{
}

/// After a stream was replaced, its length entry says how long its content is
/// and its filter is that of JPEG.
pub proof fn recompressed_entries_are_in_step(
    s: PdfStream,
    quality: u8,
    grayscale: bool,
    limit: u32,
    r: Result<i64, Seq<char>>,
    t: PdfStream,
)
    requires
        recompressed(s, quality, grayscale, limit, r, t),
        r is Ok && r->Ok_0 > 0,
        s.content.len() <= i64::MAX,
    ensures
        integer_in(t.dict, "Length"@) == Some(t.content.len() as i64),
        name_in(t.dict, "Filter"@) == Some(encode_utf8("DCTDecode"@)),
        !t.dict.contains_key(encode_utf8("DecodeParms"@)),
        grayscale ==> name_in(t.dict, "ColorSpace"@) == Some(encode_utf8("DeviceGray"@)),
        sniff::picture_format(t.content) == "jpg"@,
{
    broadcast use encode_utf8_decode_utf8;

    reveal_strlit("Length");
    reveal_strlit("Filter");
    reveal_strlit("DecodeParms");
    reveal_strlit("Width");
    reveal_strlit("Height");
    reveal_strlit("ColorSpace");
    assert(decode_utf8(encode_utf8("Length"@))[0] == 'L');
    assert(decode_utf8(encode_utf8("Filter"@))[0] == 'F');
    assert(decode_utf8(encode_utf8("DecodeParms"@))[0] == 'D');
    assert(decode_utf8(encode_utf8("Width"@))[0] == 'W');
    assert(decode_utf8(encode_utf8("Height"@))[0] == 'H');
    assert(decode_utf8(encode_utf8("ColorSpace"@))[0] == 'C');
}

/// A picture that exceeds the limit is said to be no larger than the limit when
/// it was replaced, and one that does not keeps the size it is said to have.
pub proof fn replaced_pictures_keep_to_the_limit(
    s: PdfStream,
    p: Picture,
    quality: u8,
    grayscale: bool,
    limit: u32,
    r: Result<i64, Seq<char>>,
    t: PdfStream,
)
    requires
        remade(s, p, quality, grayscale, limit, r, t),
        r is Ok && r->Ok_0 > 0,
    ensures
        limit > 0 && picture::exceeds(p, limit, limit) ==> {
            &&& integer_in(t.dict, "Width"@) is Some
            &&& integer_in(t.dict, "Height"@) is Some
            &&& 1 <= integer_in(t.dict, "Width"@)->0 <= limit
            &&& 1 <= integer_in(t.dict, "Height"@)->0 <= limit
        },
        limit == 0 || !picture::exceeds(p, limit, limit) ==> {
            &&& integer_in(t.dict, "Width"@) == integer_in(s.dict, "Width"@)
            &&& integer_in(t.dict, "Height"@) == integer_in(s.dict, "Height"@)
        },
{
    broadcast use encode_utf8_decode_utf8;

    reveal_strlit("Length");
    reveal_strlit("Filter");
    reveal_strlit("DecodeParms");
    reveal_strlit("Width");
    reveal_strlit("Height");
    reveal_strlit("ColorSpace");
    assert(decode_utf8(encode_utf8("Length"@))[0] == 'L');
    assert(decode_utf8(encode_utf8("Filter"@))[0] == 'F');
    assert(decode_utf8(encode_utf8("DecodeParms"@))[0] == 'D');
    assert(decode_utf8(encode_utf8("Width"@))[0] == 'W');
    assert(decode_utf8(encode_utf8("Height"@))[0] == 'H');
    assert(decode_utf8(encode_utf8("ColorSpace"@))[0] == 'C');
}

fn read_facts(doc: &Document, id: (u32, u16)) -> (f: StreamFacts)
    requires
        has_stream(*doc, id),
    ensures
        states(stream_at(*doc, id).dict, f),
        f.width <= 65535,
        f.height <= 65535,
{
    let width: u32 = match stream_integer(doc, id, "Width") {
        Some(v) => if 0 < v && v <= 65535 {
            v as u32
        } else {
            0
        },
        None => 0,
    };
    let height: u32 = match stream_integer(doc, id, "Height") {
        Some(v) => if 0 < v && v <= 65535 {
            v as u32
        } else {
            0
        },
        None => 0,
    };
    let bits: u32 = match stream_integer(doc, id, "BitsPerComponent") {
        Some(v) => v as u32,
        None => 8,
    };
    StreamFacts {
        width,
        height,
        filter: stream_name(doc, id, "Filter"),
        bits,
        color_space: stream_name(doc, id, "ColorSpace"),
    }
}

fn put_jpeg(
    doc: &mut Document,
    id: (u32, u16),
    jpeg: Vec<u8>,
    size: Option<(u32, u32)>,
    grayscale: bool,
)
    requires
        has_stream(*old(doc), id),
        jpeg@.len() <= i64::MAX,
    ensures
        stream_replaced(
            *old(doc),
            *final(doc),
            id,
            with_jpeg(stream_at(*old(doc), id), jpeg@, size, grayscale),
        ),
{
    let len: i64 = jpeg.len() as i64;
    let ghost before = pdf_objects(*doc);
    set_content(doc, id, jpeg);
    set_integer(doc, id, "Length", len);
    set_name(doc, id, "Filter", "DCTDecode");
    remove_entry(doc, id, "DecodeParms");
    if let Some((w, h)) = size {
        set_integer(doc, id, "Width", w as i64);
        set_integer(doc, id, "Height", h as i64);
    }
    if grayscale {
        set_name(doc, id, "ColorSpace", "DeviceGray");
    }
    forbid_compression(doc, id);
    assert(pdf_objects(*doc) =~= before.insert(id, pdf_objects(*doc)[id]));
}

/// Puts a picture that was encoded anew into its stream, where that makes it
/// smaller, and says how many bytes are saved. `size` is its size where that
/// changed.
pub fn place_jpeg(
    doc: &mut Document,
    id: (u32, u16),
    encoded: Result<Vec<u8>, String>,
    size: Option<(u32, u32)>,
    grayscale: bool,
) -> (r: Result<i64, String>)
    ensures
        if has_stream(*old(doc), id) {
            &&& has_stream(*final(doc), id)
            &&& stream_replaced(*old(doc), *final(doc), id, stream_at(*final(doc), id))
            &&& replaced(
                stream_at(*old(doc), id),
                picture::bytes_view(encoded),
                size,
                grayscale,
                answer(r),
                stream_at(*final(doc), id),
            )
        } else {
            r is Err && r->Err_0@ == "Not a stream"@ && *final(doc) == *old(doc)
        },
        r is Err || r->Ok_0 == 0 ==> *final(doc) == *old(doc),
{
    let before: usize = match content_len(doc, id) {
        Some(n) => n,
        None => {
            return Err("Not a stream".to_owned());
        },
    };
    assert(pdf_objects(*doc) =~= pdf_objects(*doc).insert(
        id,
        PdfObject::Stream(stream_at(*doc, id)),
    ));
    match encoded {
        Err(e) => Err(join("JPEG encode error: ", e.as_str())),
        Ok(jpeg) => {
            if jpeg.len() >= before {
                return Ok(0);
            }
            let saved: i64 = (before - jpeg.len()) as i64;
            put_jpeg(doc, id, jpeg, size, grayscale);
            Ok(saved)
        },
    }
}

fn remake(
    doc: &mut Document,
    id: (u32, u16),
    img: image::DynamicImage,
    quality: u8,
    grayscale: bool,
    limit: u32,
) -> (r: Result<i64, String>)
    requires
        has_stream(*old(doc), id),
        picture::is_full(picture::picture(img)),
    ensures
        has_stream(*final(doc), id),
        stream_replaced(*old(doc), *final(doc), id, stream_at(*final(doc), id)),
        remade(
            stream_at(*old(doc), id),
            picture::picture(img),
            quality,
            grayscale,
            limit,
            answer(r),
            stream_at(*final(doc), id),
        ),
        r is Err || r->Ok_0 == 0 ==> *final(doc) == *old(doc),
{
    let ghost p = picture::picture(img);
    let (w, h) = dimensions(&img);
    let resize: bool = limit > 0 && (w > limit || h > limit);
    let style = PageStyle { width: limit, height: limit, quality, contrast: false, grayscale, resize };
    let ready = prepare_image(img, style);
    let size: Option<(u32, u32)> = if resize {
        Some(dimensions(&ready))
    } else {
        None
    };
    let encoded = encode_jpeg(&ready, quality);
    assert(style == pdf_style(p, quality, grayscale, limit));
    assert(size == new_size(style, picture::picture(ready)));
    assert(picture::encodes_to(picture::picture(ready), quality, picture::bytes_view(encoded)));
    place_jpeg(doc, id, encoded, size, grayscale)
}

/// An answer, as plain values.
pub open spec fn answer(r: Result<i64, String>) -> Result<i64, Seq<char>> {
    match r {
        Ok(n) => Ok(n),
        Err(e) => Err(e@),
    }
}

/// Encodes a picture of a document anew, where that makes it smaller, and says
/// how many bytes are saved. Nothing else in the document changes, and nothing at
/// all where no byte is saved.
pub fn recompress_pdf_image(
    doc: &mut Document,
    id: (u32, u16),
    quality: u8,
    grayscale: bool,
    max_dim: u32,
) -> (r: Result<i64, String>)
    ensures
        if has_stream(*old(doc), id) {
            &&& has_stream(*final(doc), id)
            &&& stream_replaced(*old(doc), *final(doc), id, stream_at(*final(doc), id))
            &&& recompressed(
                stream_at(*old(doc), id),
                quality,
                grayscale,
                max_dim,
                answer(r),
                stream_at(*final(doc), id),
            )
        } else {
            r is Err && r->Err_0@ == "Not a stream"@ && *final(doc) == *old(doc)
        },
        r is Err || r->Ok_0 == 0 ==> *final(doc) == *old(doc),
{
    if content_len(doc, id).is_none() {
        return Err("Not a stream".to_owned());
    }
    let ghost s = stream_at(*doc, id);
    assert(pdf_objects(*doc) =~= pdf_objects(*doc).insert(id, PdfObject::Stream(s)));
    let facts = read_facts(doc, id);
    let plan = plan_image(&facts);
    assert(states(s.dict, facts) && is_plan(facts, plan));
    match plan {
        ImagePlan::Keep => Ok(0),
        ImagePlan::Refuse(e) => Err(e),
        ImagePlan::Jpeg => {
            let content = match stream_content(doc, id) {
                Some(v) => v,
                None => {
                    return Err("Not a stream".to_owned());
                },
            };
            match decode_image(content.as_slice()) {
                Ok(img) => {
                    assert(picture::decode_outcome(s.content, Ok(picture::picture(img))));
                    remake(doc, id, img, quality, grayscale, max_dim)
                },
                Err(e) => {
                    assert(picture::decode_outcome(s.content, Err(e@)));
                    Err(e)
                },
            }
        },
        ImagePlan::Samples(channels) => {
            let raw = match inflated_content(doc, id) {
                Some(v) => v,
                None => {
                    return Err("Not a stream".to_owned());
                },
            };
            match picture_from_samples(facts.width, facts.height, channels, &raw) {
                Ok(img) => remake(doc, id, img, quality, grayscale, max_dim),
                Err(e) => Err(e),
            }
        },
    }
}

// ---------------------------------------------------------------------------
// A whole document
// ---------------------------------------------------------------------------

/// What is reported while a document of so many pages is loaded; a long one is
/// worth a word.
pub open spec fn loading_text(pages: nat) -> Seq<char> {
    if pages >= 500 {
        "Loading PDF ("@ + text::decimal(pages) + " pages, this can take a while)..."@
    } else {
        "Loading PDF..."@
    }
}

/// What is reported while a document of so many pages is loaded.
pub fn loading_message(pages: u32) -> (s: String)
    ensures
        s@ == loading_text(pages as nat),
{
    if pages >= 500 {
        join3(
            "Loading PDF (",
            decimal_text(pages as u64).as_str(),
            " pages, this can take a while)...",
        )
    } else {
        "Loading PDF...".to_owned()
    }
}

/// The pictures of a document, as they are encoded anew one after the other.
pub struct PdfRun {
    pub ids: Vec<(u32, u16)>,
    pub next: usize,
    pub optimized: usize,
    pub saved: u128,
}

/// What one step of a run came to.
pub enum PdfStep {
    /// The run was called off.
    Cancelled,
    /// One picture was dealt with.
    Working(ConvertProgress),
    /// There is nothing left but to save the document.
    Saving(ConvertProgress),
}

/// What is reported when so many pictures were made smaller by so many bytes.
pub open spec fn saving_text(optimized: nat, saved: nat) -> Seq<char> {
    "Saving PDF ("@ + text::decimal(optimized) + " images optimized, saved ~"@ + size::size_text(saved) + ")"@
}

impl PdfRun {
    /// No more pictures are done than there are, and each saved what a stream
    /// can hold at most.
    pub open spec fn valid(&self) -> bool {
        &&& self.next <= self.ids@.len()
        &&& self.optimized <= self.next
        &&& self.saved <= self.optimized * i64::MAX
    }

    /// Starts with the pictures of a document.
    pub fn new(doc: &Document) -> (run: Self)
        ensures
            run.valid(),
            lists_images(pdf_objects(*doc), run.ids@),
            run.next == 0,
            run.optimized == 0,
            run.saved == 0,
    {
        PdfRun { ids: image_ids(doc), next: 0, optimized: 0, saved: 0 }
    }

    /// How many pictures there are in words.
    pub fn found(&self) -> (p: ConvertProgress)
        ensures
            p.current == 0,
            p.total == self.ids@.len(),
            p.message@ == "Found "@ + text::decimal(self.ids@.len()) + " images in PDF"@,
    {
        let total: usize = self.ids.len();
        let message = join3("Found ", decimal_text(total as u64).as_str(), " images in PDF");
        ConvertProgress { current: 0, total, message }
    }

    /// Counts the answer for one picture: only what was saved counts.
    pub fn tally(&mut self, r: &Result<i64, String>)
        requires
            old(self).valid(),
            old(self).next < old(self).ids@.len(),
        ensures
            final(self).valid(),
            final(self).ids == old(self).ids,
            final(self).next == old(self).next + 1,
            *r is Ok && r->Ok_0 > 0 ==> final(self).optimized == old(self).optimized + 1
                && final(self).saved == old(self).saved + r->Ok_0,
            *r is Err || r->Ok_0 <= 0 ==> final(self).optimized == old(self).optimized
                && final(self).saved == old(self).saved,
    {
        let total: usize = self.ids.len();
        assert(self.next < total);
        if let Ok(n) = r {
            if *n > 0 {
                assert(self.optimized * i64::MAX + i64::MAX == (self.optimized + 1) * i64::MAX)
                    by (nonlinear_arith);
                assert(self.optimized * i64::MAX <= 0xffff_ffff_ffff_ffff * 0x7fff_ffff_ffff_ffff)
                    by (nonlinear_arith)
                    requires
                        self.optimized <= 0xffff_ffff_ffff_ffff,
                ;
                self.optimized += 1;
                self.saved = self.saved + *n as u128;
            }
        }
        self.next += 1;
    }

    /// Deals with the next picture, unless the run was called off, and says what
    /// to report. With no picture left there is nothing more to do.
    pub fn step(
        &mut self,
        doc: &mut Document,
        cancelled: bool,
        quality: u8,
        grayscale: bool,
        max_dim: u32,
    ) -> (r: PdfStep)
        requires
            old(self).valid(),
            old(self).saved <= usize::MAX,
        ensures
            final(self).valid(),
            final(self).ids == old(self).ids,
            old(self).next == old(self).ids@.len() ==> {
                &&& r is Saving
                &&& r->Saving_0.current == old(self).ids@.len()
                &&& r->Saving_0.total == old(self).ids@.len()
                &&& r->Saving_0.message@ == saving_text(
                    old(self).optimized as nat,
                    old(self).saved as nat,
                )
                &&& *final(self) == *old(self)
                &&& *final(doc) == *old(doc)
            },
            old(self).next < old(self).ids@.len() && cancelled ==> r is Cancelled && *final(self)
                == *old(self) && *final(doc) == *old(doc),
            old(self).next < old(self).ids@.len() && !cancelled ==> {
                &&& r is Working
                &&& progress::reports(
                    r->Working_0,
                    "Optimizing"@,
                    (old(self).next + 1) as nat,
                    old(self).ids@.len(),
                )
                &&& final(self).next == old(self).next + 1
                &&& image_step(
                    *old(self),
                    *final(self),
                    *old(doc),
                    *final(doc),
                    quality,
                    grayscale,
                    max_dim,
                )
            },
    {
        let total: usize = self.ids.len();
        if self.next == total {
            let mut message = join3(
                "Saving PDF (",
                decimal_text(self.optimized as u64).as_str(),
                " images optimized, saved ~",
            );
            message.append(format_size(self.saved as usize).as_str());
            message.append(")");
            return PdfStep::Saving(ConvertProgress { current: total, total, message });
        }
        if cancelled {
            return PdfStep::Cancelled;
        }
        let id = self.ids[self.next];
        let r = recompress_pdf_image(doc, id, quality, grayscale, max_dim);
        proof {
            if has_stream(*old(doc), id) {
                recompressing_never_grows(
                    stream_at(*old(doc), id),
                    quality,
                    grayscale,
                    max_dim,
                    answer(r),
                    stream_at(*doc, id),
                );
            }
        }
        self.tally(&r);
        PdfStep::Working(report_count("Optimizing", self.next, total))
    }
}

/// The bytes that the stream with an id holds, 0 where there is none.
pub open spec fn held(doc: Document, id: (u32, u16)) -> int {
    if has_stream(doc, id) {
        stream_at(doc, id).content.len() as int
    } else {
        0
    }
}

/// One picture was dealt with: the run counts what it saved.
pub open spec fn image_step(
    run: PdfRun,
    next: PdfRun,
    doc: Document,
    after: Document,
    quality: u8,
    grayscale: bool,
    limit: u32,
) -> bool {
    let id = run.ids@[run.next as int];
    &&& if has_stream(doc, id) {
        &&& has_stream(after, id)
        &&& stream_replaced(doc, after, id, stream_at(after, id))
        &&& exists|r: Result<i64, Seq<char>>| #[trigger]
            recompressed(
                stream_at(doc, id),
                quality,
                grayscale,
                limit,
                r,
                stream_at(after, id),
            )
    } else {
        after == doc
    }
    &&& held(after, id) == held(doc, id) ==> after == doc
    &&& next.saved - run.saved == held(doc, id) - held(after, id)
    &&& next.optimized - run.optimized == (if held(after, id) < held(doc, id) {
        1int
    } else {
        0
    })
}

// ---------------------------------------------------------------------------
// Laws of a run
// ---------------------------------------------------------------------------

/// `after` is `before` as it was, or a picture that takes fewer bytes and is
/// stored as JPEG now.
pub open spec fn kept_or_shrunk(before: PdfObject, after: PdfObject) -> bool {
    ||| after == before
    ||| {
        &&& before is Stream && after is Stream
        &&& after->Stream_0.content.len() < before->Stream_0.content.len()
        &&& name_in(after->Stream_0.dict, "Filter"@) == Some(encode_utf8("DCTDecode"@))
        &&& sniff::picture_format(after->Stream_0.content) == "jpg"@
        &&& is_image(after) == is_image(before)
    }
}

/// How many bytes the first `n` pictures take less than at the start.
pub open spec fn saved_so_far(ids: Seq<(u32, u16)>, n: nat, start: Document, doc: Document) -> int
    decreases n,
{
    if n == 0 {
        0
    } else {
        saved_so_far(ids, (n - 1) as nat, start, doc) + held(start, ids[n - 1]) - held(doc, ids[n - 1])
    }
}

/// How many of the first `n` pictures take fewer bytes than at the start.
pub open spec fn shrunk_so_far(ids: Seq<(u32, u16)>, n: nat, start: Document, doc: Document) -> int
    decreases n,
{
    if n == 0 {
        0
    } else {
        shrunk_so_far(ids, (n - 1) as nat, start, doc) + (if held(doc, ids[n - 1]) < held(
            start,
            ids[n - 1],
        ) {
            1int
        } else {
            0
        })
    }
}

/// What a run has made of a document since its start: the pictures that were
/// dealt with are as they were or smaller, everything else is as it was, and the
/// run has counted what was saved.
pub open spec fn run_so_far(start: Document, run: PdfRun, doc: Document) -> bool {
    let done = run.ids@.take(run.next as int);
    &&& pdf_trailer(doc) == pdf_trailer(start)
    &&& pdf_objects(doc).dom() == pdf_objects(start).dom()
    &&& lists_images(pdf_objects(doc), run.ids@)
    &&& forall|id: (u32, u16)|
        pdf_objects(start).contains_key(id) && !done.contains(id) ==> #[trigger] pdf_objects(doc)[id]
            == pdf_objects(start)[id]
    &&& forall|k: int|
        0 <= k < done.len() ==> kept_or_shrunk(
            pdf_objects(start)[#[trigger] done[k]],
            pdf_objects(doc)[done[k]],
        )
    &&& run.saved == saved_so_far(run.ids@, run.next as nat, start, doc)
    &&& run.optimized == shrunk_so_far(run.ids@, run.next as nat, start, doc)
}

/// A stream that was made smaller is a JPEG picture now, and it is a picture of
/// the document just where it was one.
proof fn lemma_recompressed(
    s: PdfStream,
    quality: u8,
    grayscale: bool,
    limit: u32,
    r: Result<i64, Seq<char>>,
    t: PdfStream,
)
    requires
        recompressed(s, quality, grayscale, limit, r, t),
    ensures
        kept_or_shrunk(PdfObject::Stream(s), PdfObject::Stream(t)),
        is_image(PdfObject::Stream(t)) == is_image(PdfObject::Stream(s)),
{
    broadcast use encode_utf8_decode_utf8;

    reveal_strlit("Length");
    reveal_strlit("Filter");
    reveal_strlit("DecodeParms");
    reveal_strlit("Width");
    reveal_strlit("Height");
    reveal_strlit("ColorSpace");
    reveal_strlit("Subtype");
    assert(decode_utf8(encode_utf8("Length"@))[0] == 'L');
    assert(decode_utf8(encode_utf8("Filter"@))[0] == 'F');
    assert(decode_utf8(encode_utf8("DecodeParms"@))[0] == 'D');
    assert(decode_utf8(encode_utf8("Width"@))[0] == 'W');
    assert(decode_utf8(encode_utf8("Height"@))[0] == 'H');
    assert(decode_utf8(encode_utf8("ColorSpace"@))[0] == 'C');
    assert(decode_utf8(encode_utf8("Subtype"@))[0] == 'S');
}

/// What the first pictures save does not depend on other objects.
proof fn lemma_same_savings(
    ids: Seq<(u32, u16)>,
    n: nat,
    start: Document,
    doc: Document,
    after: Document,
)
    requires
        n <= ids.len(),
        forall|k: int| 0 <= k < n ==> held(doc, #[trigger] ids[k]) == held(after, ids[k]),
    ensures
        saved_so_far(ids, n, start, after) == saved_so_far(ids, n, start, doc),
        shrunk_so_far(ids, n, start, after) == shrunk_so_far(ids, n, start, doc),
    decreases n,
{
    if n > 0 {
        lemma_same_savings(ids, (n - 1) as nat, start, doc, after);
        assert(held(doc, ids[n - 1]) == held(after, ids[n - 1]));
    }
}

/// Whether one state of a run and its document comes of another by dealing with a
/// picture.
pub open spec fn run_step(
    before: (PdfRun, Document),
    after: (PdfRun, Document),
    quality: u8,
    grayscale: bool,
    limit: u32,
) -> bool {
    &&& before.0.next < before.0.ids@.len()
    &&& after.0.ids == before.0.ids
    &&& after.0.next == before.0.next + 1
    &&& image_step(before.0, after.0, before.1, after.1, quality, grayscale, limit)
}

proof fn lemma_run_step(
    start: Document,
    before: (PdfRun, Document),
    after: (PdfRun, Document),
    quality: u8,
    grayscale: bool,
    limit: u32,
)
    requires
        run_so_far(start, before.0, before.1),
        run_step(before, after, quality, grayscale, limit),
    ensures
        run_so_far(start, after.0, after.1),
{
    let ids = before.0.ids@;
    let n = before.0.next as int;
    let id = ids[n];
    let (x, y, z) = (pdf_objects(start), pdf_objects(before.1), pdf_objects(after.1));
    assert(ids.contains(id));
    let s = stream_at(before.1, id);
    let t = stream_at(after.1, id);
    let r = choose|r: Result<i64, Seq<char>>| #[trigger] recompressed(s, quality, grayscale, limit, r, t);
    lemma_recompressed(s, quality, grayscale, limit, r, t);
    assert(z == y.insert(id, PdfObject::Stream(t)));
    assert(z.dom() =~= x.dom());
    assert forall|k: int| 0 <= k < n implies #[trigger] ids[k] != id by {
        assert(id_lt(ids[k], ids[n]));
    }
    let done = ids.take(n);
    let more = ids.take(n + 1);
    assert(!done.contains(id));
    assert(y[id] == x[id]);
    assert(lists_images(z, ids)) by {
        assert forall|other: (u32, u16)| #[trigger] ids.contains(other) <==> z.contains_key(other)
            && is_image(z[other]) by {
            assert(ids.contains(other) <==> y.contains_key(other) && is_image(y[other]));
        }
    }
    assert forall|other: (u32, u16)|
        x.contains_key(other) && !more.contains(other) implies #[trigger] z[other] == x[other] by {
        assert(more[n] == id);
        if done.contains(other) {
            let k = choose|k: int| 0 <= k < done.len() && done[k] == other;
            assert(more[k] == other);
        }
        assert(y[other] == x[other]);
    }
    assert forall|k: int| 0 <= k < more.len() implies kept_or_shrunk(
        x[#[trigger] more[k]],
        z[more[k]],
    ) by {
        if k < n {
            assert(done[k] == more[k]);
            assert(ids[k] != id);
        }
    }
    assert forall|k: int| 0 <= k < n implies held(before.1, #[trigger] ids[k]) == held(
        after.1,
        ids[k],
    ) by {
        assert(ids[k] != id);
    }
    lemma_same_savings(ids, n as nat, start, before.1, after.1);
    assert(held(start, id) == held(before.1, id));
}

/// A whole run changes nothing but the pictures of a document, and each of these
/// stays as it is or becomes a smaller JPEG picture; the run has counted how many
/// did, and what they save. `states` are the run and the document at the start
/// and after each picture.
pub proof fn runs_change_only_pictures(
    states: Seq<(PdfRun, Document)>,
    quality: u8,
    grayscale: bool,
    limit: u32,
    i: int,
)
    requires
        states.len() > 0,
        lists_images(pdf_objects(states[0].1), states[0].0.ids@),
        states[0].0.next == 0,
        states[0].0.optimized == 0,
        states[0].0.saved == 0,
        forall|k: int|
            0 < k < states.len() ==> run_step(
                states[k - 1],
                #[trigger] states[k],
                quality,
                grayscale,
                limit,
            ),
        0 <= i < states.len(),
    ensures
        states[i].0.ids == states[0].0.ids,
        states[i].0.next == i,
        run_so_far(states[0].1, states[i].0, states[i].1),
    decreases i,
{
    if i > 0 {
        runs_change_only_pictures(states, quality, grayscale, limit, i - 1);
        assert(run_step(states[i - 1], states[i], quality, grayscale, limit));
        lemma_run_step(states[0].1, states[i - 1], states[i], quality, grayscale, limit);
    }
}

// ---------------------------------------------------------------------------
// Laws of pictures in a document
// ---------------------------------------------------------------------------


/// Only pictures with a side below 64 are left alone; JPEG files and plain samples of eight
/// bits are encoded anew, whatever their size, and all else is refused.
pub proof fn only_small_pictures_are_left_alone(f: StreamFacts, plan: ImagePlan)
    requires
        is_plan(f, plan),
    ensures
        ({
            let large = f.width >= 64 && f.height >= 64;
            let jpeg = optional(f.filter) == Some(encode_utf8("DCTDecode"@));
            let plain = optional(f.filter) == Some(encode_utf8("FlateDecode"@)) && f.bits == 8;
            let rgb = optional(f.color_space) == Some(encode_utf8("DeviceRGB"@));
            let gray = optional(f.color_space) == Some(encode_utf8("DeviceGray"@));
            &&& plan is Keep <==> !large
            &&& plan is Jpeg <==> large && jpeg
            &&& plan == ImagePlan::Samples(3) <==> large && plain && rgb
            &&& plan == ImagePlan::Samples(1) <==> large && plain && gray
            &&& plan is Refuse <==> large && !jpeg && !(plain && (rgb || gray))
        }),
{
    broadcast use encode_utf8_decode_utf8;

    reveal_strlit("DCTDecode");
    reveal_strlit("FlateDecode");
    reveal_strlit("DeviceRGB");
    reveal_strlit("DeviceGray");
    assert(decode_utf8(encode_utf8("DCTDecode"@)).len() == 9);
    assert(decode_utf8(encode_utf8("FlateDecode"@)).len() == 11);
    assert(decode_utf8(encode_utf8("DeviceRGB"@)).len() == 9);
    assert(decode_utf8(encode_utf8("DeviceGray"@)).len() == 10);
}

/// Whether a dictionary has an integer for a key.
pub open spec fn has_integer(dict: Map<Seq<u8>, PdfValue>, key: Seq<char>, v: i64) -> bool {
    dict.contains_key(encode_utf8(key)) && dict[encode_utf8(key)] == PdfValue::Integer(v)
}

/// Whether a dictionary has a name for a key.
pub open spec fn has_name(dict: Map<Seq<u8>, PdfValue>, key: Seq<char>, name: Seq<char>) -> bool {
    dict.contains_key(encode_utf8(key)) && dict[encode_utf8(key)] == PdfValue::Name(
        encode_utf8(name),
    )
}

/// `t` and `r` are what becomes of a stream and what is answered where `q` was made of its
/// picture `p` and encoding it gave `encoded`: a JPEG file that is shorter takes the place
/// of the content, and the answer is how much shorter it is; else the stream stays as it
/// is.
pub open spec fn shorter_is_better(
    s: PdfStream,
    encoded: Result<Seq<u8>, Seq<char>>,
    r: Result<i64, Seq<char>>,
    t: PdfStream,
) -> bool {
    match encoded {
        Ok(jpeg) => {
            &&& jpeg.len() < s.content.len() ==> t.content == jpeg && r is Ok && r->Ok_0
                == s.content.len() - jpeg.len()
            &&& jpeg.len() >= s.content.len() ==> t == s && r == Ok::<i64, Seq<char>>(0)
        },
        Err(e) => t == s && r == Err::<i64, Seq<char>>("JPEG encode error: "@ + e),
    }
}

proof fn lemma_remade(
    s: PdfStream,
    p: Picture,
    quality: u8,
    grayscale: bool,
    limit: u32,
    r: Result<i64, Seq<char>>,
    t: PdfStream,
) -> (made: (Picture, Result<Seq<u8>, Seq<char>>))
    requires
        remade(s, p, quality, grayscale, limit, r, t),
    ensures
        picture::prepared(
            p,
            (PageStyle {
                width: limit,
                height: limit,
                quality,
                contrast: false,
                grayscale,
                resize: limit > 0 && (p.width > limit || p.height > limit),
            }),
            made.0,
        ),
        picture::encodes_to(made.0, quality, made.1),
        shorter_is_better(s, made.1, r, t),
        made.1 is Ok ==> picture::header_dimensions(made.1->Ok_0) == Some(
            (made.0.width, made.0.height),
        ),
{
    let style = pdf_style(p, quality, grayscale, limit);
    let (q, encoded) = choose|q: Picture, encoded: Result<Seq<u8>, Seq<char>>| #[trigger]
        picture::prepared(p, style, q) && #[trigger] picture::encodes_to(q, quality, encoded)
            && picture::jpeg_or_error(q, encoded) && replaced(
            s,
            encoded,
            new_size(style, q),
            grayscale,
            r,
            t,
        );
    assert(style == (PageStyle {
        width: limit,
        height: limit,
        quality,
        contrast: false,
        grayscale,
        resize: limit > 0 && (p.width > limit || p.height > limit),
    }));
    (q, encoded)
}

/// A JPEG picture of at least 64 pixels a side is encoded anew, however large it is: it is
/// decoded, fitted into the limit where it exceeds it, made gray where that is wanted and
/// encoded at the quality that is wanted; and where that is shorter it takes the place of
/// the content. `made` is the picture that was made of it and what encoding it gave.
pub proof fn jpeg_pictures_are_encoded_anew(
    s: PdfStream,
    width: i64,
    height: i64,
    quality: u8,
    grayscale: bool,
    limit: u32,
    r: Result<i64, Seq<char>>,
    t: PdfStream,
) -> (made: (Result<Picture, Seq<char>>, Picture, Result<Seq<u8>, Seq<char>>))
    requires
        recompressed(s, quality, grayscale, limit, r, t),
        has_integer(s.dict, "Width"@, width),
        has_integer(s.dict, "Height"@, height),
        64 <= width <= 65535,
        64 <= height <= 65535,
        has_name(s.dict, "Filter"@, "DCTDecode"@),
    ensures
        picture::decode_outcome(s.content, made.0),
        made.0 matches Err(e) ==> t == s && r == Err::<i64, Seq<char>>(e),
        made.0 matches Ok(p) ==> {
            &&& picture::prepared(
                p,
                (PageStyle {
                    width: limit,
                    height: limit,
                    quality,
                    contrast: false,
                    grayscale,
                    resize: limit > 0 && (p.width > limit || p.height > limit),
                }),
                made.1,
            )
            &&& picture::encodes_to(made.1, quality, made.2)
            &&& shorter_is_better(s, made.2, r, t)
            &&& made.2 is Ok ==> picture::header_dimensions(made.2->Ok_0) == Some(
                (made.1.width, made.1.height),
            )
        },
{
    let (f, plan) = choose|f: StreamFacts, plan: ImagePlan| #[trigger]
        states(s.dict, f) && #[trigger] is_plan(f, plan) && match plan {
            ImagePlan::Keep => t == s && r == Ok::<i64, Seq<char>>(0),
            ImagePlan::Refuse(e) => t == s && r == Err::<i64, Seq<char>>(e@),
            ImagePlan::Jpeg => exists|d: Result<Picture, Seq<char>>| #[trigger]
                picture::decode_outcome(s.content, d) && made_of(s, d, quality, grayscale, limit, r, t),
            ImagePlan::Samples(n) => made_of(
                s,
                sampled_picture(f.width, f.height, n, inflated(s)),
                quality,
                grayscale,
                limit,
                r,
                t,
            ),
        };
    only_small_pictures_are_left_alone(f, plan);
    assert(f.width == width && f.height == height);
    let d = choose|d: Result<Picture, Seq<char>>| #[trigger]
        picture::decode_outcome(s.content, d) && made_of(s, d, quality, grayscale, limit, r, t);
    match d {
        Ok(p) => {
            let made = lemma_remade(s, p, quality, grayscale, limit, r, t);
            (d, made.0, made.1)
        },
        Err(_) => (d, arbitrary(), arbitrary()),
    }
}

/// Plain samples of at least 64 pixels a side are encoded anew in the same way: the samples,
/// three or one for each pixel, make the picture row by row, and what is behind them is left
/// out. `made` is the picture that was made of it and what encoding it gave.
pub proof fn plain_samples_are_encoded_anew(
    s: PdfStream,
    width: i64,
    height: i64,
    rgb: bool,
    quality: u8,
    grayscale: bool,
    limit: u32,
    r: Result<i64, Seq<char>>,
    t: PdfStream,
) -> (made: (Picture, Picture, Result<Seq<u8>, Seq<char>>))
    requires
        recompressed(s, quality, grayscale, limit, r, t),
        has_integer(s.dict, "Width"@, width),
        has_integer(s.dict, "Height"@, height),
        64 <= width <= 65535,
        64 <= height <= 65535,
        has_name(s.dict, "Filter"@, "FlateDecode"@),
        has_integer(s.dict, "BitsPerComponent"@, 8) || !s.dict.contains_key(
            encode_utf8("BitsPerComponent"@),
        ),
        rgb ==> has_name(s.dict, "ColorSpace"@, "DeviceRGB"@),
        !rgb ==> has_name(s.dict, "ColorSpace"@, "DeviceGray"@),
    ensures
        ({
            let needed = width * height * (if rgb {
                3int
            } else {
                1
            });
            &&& inflated(s).len() < needed || needed > usize::MAX ==> t == s && r is Err
            &&& inflated(s).len() >= needed && needed <= usize::MAX ==> {
                let p = made.0;
                &&& p.width == width && p.height == height
                &&& p.samples == inflated(s).take(needed)
                &&& p.layout == (if rgb {
                    Layout::Rgb8
                } else {
                    Layout::Gray8
                })
                &&& picture::prepared(
                    p,
                    (PageStyle {
                        width: limit,
                        height: limit,
                        quality,
                        contrast: false,
                        grayscale,
                        resize: limit > 0 && (p.width > limit || p.height > limit),
                    }),
                    made.1,
                )
                &&& picture::encodes_to(made.1, quality, made.2)
                &&& shorter_is_better(s, made.2, r, t)
            }
        }),
{
    broadcast use encode_utf8_decode_utf8;

    reveal_strlit("DCTDecode");
    reveal_strlit("FlateDecode");
    reveal_strlit("DeviceRGB");
    reveal_strlit("DeviceGray");
    assert(decode_utf8(encode_utf8("DCTDecode"@)).len() == 9);
    assert(decode_utf8(encode_utf8("FlateDecode"@)).len() == 11);
    assert(decode_utf8(encode_utf8("DeviceRGB"@)).len() == 9);
    assert(decode_utf8(encode_utf8("DeviceGray"@)).len() == 10);
    let (f, plan) = choose|f: StreamFacts, plan: ImagePlan| #[trigger]
        states(s.dict, f) && #[trigger] is_plan(f, plan) && match plan {
            ImagePlan::Keep => t == s && r == Ok::<i64, Seq<char>>(0),
            ImagePlan::Refuse(e) => t == s && r == Err::<i64, Seq<char>>(e@),
            ImagePlan::Jpeg => exists|d: Result<Picture, Seq<char>>| #[trigger]
                picture::decode_outcome(s.content, d) && made_of(s, d, quality, grayscale, limit, r, t),
            ImagePlan::Samples(n) => made_of(
                s,
                sampled_picture(f.width, f.height, n, inflated(s)),
                quality,
                grayscale,
                limit,
                r,
                t,
            ),
        };
    only_small_pictures_are_left_alone(f, plan);
    assert(f.width == width && f.height == height);
    let n: u32 = if rgb {
        3
    } else {
        1
    };
    assert(plan == ImagePlan::Samples(n));
    match sampled_picture(f.width, f.height, n, inflated(s)) {
        Ok(p) => {
            let made = lemma_remade(s, p, quality, grayscale, limit, r, t);
            (p, made.0, made.1)
        },
        Err(_) => (arbitrary(), arbitrary(), arbitrary()),
    }
}

/// A picture that says that it has a side below 64, or says nothing of a side, stays as it
/// is; so does one of another filter, which is refused.
pub proof fn other_pictures_stay_as_they_are(
    s: PdfStream,
    quality: u8,
    grayscale: bool,
    limit: u32,
    r: Result<i64, Seq<char>>,
    t: PdfStream,
    v: i64,
)
    requires
        recompressed(s, quality, grayscale, limit, r, t),
    ensures
        (has_integer(s.dict, "Width"@, v) || has_integer(s.dict, "Height"@, v)) && (v < 64 || v > 65535)
            ==> t == s && r == Ok::<i64, Seq<char>>(0),
        !s.dict.contains_key(encode_utf8("Width"@)) || !s.dict.contains_key(encode_utf8("Height"@))
            ==> t == s && r == Ok::<i64, Seq<char>>(0),
        !has_name(s.dict, "Filter"@, "DCTDecode"@) && !has_name(s.dict, "Filter"@, "FlateDecode"@)
            ==> t == s,
{
    let (f, plan) = choose|f: StreamFacts, plan: ImagePlan| #[trigger]
        states(s.dict, f) && #[trigger] is_plan(f, plan) && match plan {
            ImagePlan::Keep => t == s && r == Ok::<i64, Seq<char>>(0),
            ImagePlan::Refuse(e) => t == s && r == Err::<i64, Seq<char>>(e@),
            ImagePlan::Jpeg => exists|d: Result<Picture, Seq<char>>| #[trigger]
                picture::decode_outcome(s.content, d) && made_of(s, d, quality, grayscale, limit, r, t),
            ImagePlan::Samples(n) => made_of(
                s,
                sampled_picture(f.width, f.height, n, inflated(s)),
                quality,
                grayscale,
                limit,
                r,
                t,
            ),
        };
    only_small_pictures_are_left_alone(f, plan);
}

/// Samples of more or fewer than eight bits stay as they are.
pub proof fn samples_of_other_depths_are_refused(
    s: PdfStream,
    width: i64,
    height: i64,
    bits: i64,
    quality: u8,
    grayscale: bool,
    limit: u32,
    r: Result<i64, Seq<char>>,
    t: PdfStream,
)
    requires
        recompressed(s, quality, grayscale, limit, r, t),
        has_integer(s.dict, "Width"@, width),
        has_integer(s.dict, "Height"@, height),
        64 <= width <= 65535,
        64 <= height <= 65535,
        !has_name(s.dict, "Filter"@, "DCTDecode"@),
        has_integer(s.dict, "BitsPerComponent"@, bits),
        0 <= bits <= u32::MAX,
        bits != 8,
    ensures
        t == s,
        r is Err,
{
    let (f, plan) = choose|f: StreamFacts, plan: ImagePlan| #[trigger]
        states(s.dict, f) && #[trigger] is_plan(f, plan) && match plan {
            ImagePlan::Keep => t == s && r == Ok::<i64, Seq<char>>(0),
            ImagePlan::Refuse(e) => t == s && r == Err::<i64, Seq<char>>(e@),
            ImagePlan::Jpeg => exists|d: Result<Picture, Seq<char>>| #[trigger]
                picture::decode_outcome(s.content, d) && made_of(s, d, quality, grayscale, limit, r, t),
            ImagePlan::Samples(n) => made_of(
                s,
                sampled_picture(f.width, f.height, n, inflated(s)),
                quality,
                grayscale,
                limit,
                r,
                t,
            ),
        };
    only_small_pictures_are_left_alone(f, plan);
    assert(f.width == width && f.height == height && f.bits == bits);
}

/// The pictures of a document are listed once each, by their numbers.
pub proof fn pictures_are_listed_once(
    objects: Map<(u32, u16), PdfObject>,
    ids: Seq<(u32, u16)>,
    id: (u32, u16),
    i: int,
    j: int,
)
    requires
        lists_images(objects, ids),
    ensures
        ids.contains(id) <==> objects.contains_key(id) && match objects[id] {
            PdfObject::Stream(s) => has_name(s.dict, "Subtype"@, "Image"@),
            PdfObject::Other(_) => false,
        },
        0 <= i < j < ids.len() ==> ids[i].0 < ids[j].0 || (ids[i].0 == ids[j].0 && ids[i].1 < ids[j].1),
{
    if 0 <= i < j < ids.len() {
        assert(id_lt(ids[i], ids[j]));
    }
}

/// Where a stream is replaced every other object and the trailer stay as they are.
pub proof fn other_objects_stay_as_they_are(
    before: Document,
    after: Document,
    id: (u32, u16),
    s: PdfStream,
    other: (u32, u16),
)
    requires
        stream_replaced(before, after, id, s),
        other != id,
    ensures
        pdf_objects(after).contains_key(id) && pdf_objects(after)[id] == PdfObject::Stream(s),
        pdf_objects(after).contains_key(other) == pdf_objects(before).contains_key(other),
        pdf_objects(before).contains_key(other) ==> pdf_objects(after)[other] == pdf_objects(
            before,
        )[other],
        pdf_trailer(after) == pdf_trailer(before),
{
}

/// A document is loaded as its bytes are read, or it is said why it cannot be; one that was
/// decrypted is told from one that was not.
pub proof fn documents_are_loaded_as_they_are(
    data: Seq<u8>,
    decrypted: bool,
    outcome: Result<(Map<(u32, u16), PdfObject>, Map<Seq<u8>, PdfValue>), Seq<char>>,
)
    requires
        load_outcome(data, decrypted, outcome),
    ensures
        outcome is Ok ==> loads_as(data, outcome),
        outcome is Err && decrypted ==> exists|e: Seq<char>| #[trigger]
            loads_as(data, Err(e)) && outcome->Err_0 == "Cannot load decrypted PDF: "@ + e,
        outcome is Err && !decrypted ==> exists|e: Seq<char>| #[trigger]
            loads_as(data, Err(e)) && outcome->Err_0 == "Cannot load PDF: "@ + e,
{
}

/// A picture that is replaced and was fitted says its new size, and one that was made gray
/// says so; else these entries stay as they are.
pub proof fn replaced_pictures_say_what_they_are(
    s: PdfStream,
    p: Picture,
    quality: u8,
    grayscale: bool,
    limit: u32,
    r: Result<i64, Seq<char>>,
    t: PdfStream,
)
    requires
        remade(s, p, quality, grayscale, limit, r, t),
        r is Ok && r->Ok_0 > 0,
    ensures
        grayscale ==> has_name(t.dict, "ColorSpace"@, "DeviceGray"@),
        !grayscale ==> t.dict.contains_key(encode_utf8("ColorSpace"@)) == s.dict.contains_key(
            encode_utf8("ColorSpace"@),
        ) && t.dict[encode_utf8("ColorSpace"@)] == s.dict[encode_utf8("ColorSpace"@)],
        limit > 0 && (p.width > limit || p.height > limit) ==> match picture::header_dimensions(
            t.content,
        ) {
            Some((w, h)) => has_integer(t.dict, "Width"@, w as i64) && has_integer(
                t.dict,
                "Height"@,
                h as i64,
            ),
            None => false,
        },
        has_name(t.dict, "Filter"@, "DCTDecode"@),
        t.content.len() <= i64::MAX ==> has_integer(t.dict, "Length"@, t.content.len() as i64),
        !t.dict.contains_key(encode_utf8("DecodeParms"@)),
{
    broadcast use encode_utf8_decode_utf8;

    reveal_strlit("Length");
    reveal_strlit("Filter");
    reveal_strlit("DecodeParms");
    reveal_strlit("Width");
    reveal_strlit("Height");
    reveal_strlit("ColorSpace");
    assert(decode_utf8(encode_utf8("Length"@))[0] == 'L');
    assert(decode_utf8(encode_utf8("Filter"@))[0] == 'F');
    assert(decode_utf8(encode_utf8("DecodeParms"@))[0] == 'D');
    assert(decode_utf8(encode_utf8("Width"@))[0] == 'W');
    assert(decode_utf8(encode_utf8("Height"@))[0] == 'H');
    assert(decode_utf8(encode_utf8("ColorSpace"@))[0] == 'C');
}

/// Of a stream that is replaced only the entries change that describe the picture: its
/// length, its filter, its size and its colors.
pub proof fn other_entries_stay_as_they_are(
    s: PdfStream,
    quality: u8,
    grayscale: bool,
    limit: u32,
    r: Result<i64, Seq<char>>,
    t: PdfStream,
    key: Seq<u8>,
)
    requires
        recompressed(s, quality, grayscale, limit, r, t),
        key != encode_utf8("Length"@) && key != encode_utf8("Filter"@) && key != encode_utf8(
            "DecodeParms"@,
        ),
        key != encode_utf8("Width"@) && key != encode_utf8("Height"@) && key != encode_utf8(
            "ColorSpace"@,
        ),
    ensures
        t.dict.contains_key(key) == s.dict.contains_key(key),
        s.dict.contains_key(key) ==> t.dict[key] == s.dict[key],
        t.start == s.start,
        t.compressible ==> t == s,
{
    recompressing_never_grows(s, quality, grayscale, limit, r, t);
}

/// A picture of a document is a stream whose subtype says so.
pub proof fn pictures_are_told_by_their_subtype(o: PdfObject)
    ensures
        is_image(o) <==> match o {
            PdfObject::Stream(s) => has_name(s.dict, "Subtype"@, "Image"@),
            PdfObject::Other(_) => false,
        },
{
}

/// What is reported of a document: how many pages it has, where they are 500 or more, and
/// how many pictures were made smaller by how much. `r` is what stands for the numbers.
pub proof fn documents_are_reported(pages: nat, optimized: nat, saved: nat) -> (r: (
    Seq<char>,
    Seq<char>,
))
    ensures
        pages < 500 ==> loading_text(pages) == "Loading PDF..."@,
        pages >= 500 ==> loading_text(pages) == "Loading PDF ("@ + r.0
            + " pages, this can take a while)..."@,
        saving_text(optimized, saved) == "Saving PDF ("@ + r.1 + " images optimized, saved ~"@
            + size::size_text(saved) + ")"@,
        natural::all_digits(r.0) && natural::digits_value(r.0) == pages,
        natural::all_digits(r.1) && natural::digits_value(r.1) == optimized,
{
    names::lemma_decimal(pages);
    names::lemma_decimal(optimized);
    (text::decimal(pages), text::decimal(optimized))
}

} // verus!
