//! Formats told by the first bytes of a file.

use crate::text::same_text;
use crate::text;
use vstd::prelude::*;

verus! {

/// The format that the first bytes of a picture show, as an extension; what is
/// not recognised counts as JPEG.
pub open spec fn picture_format(data: Seq<u8>) -> Seq<char> {
    if seq![0xFFu8, 0xD8, 0xFF].is_prefix_of(data) {
        "jpg"@
    } else if seq![0x89u8, 0x50, 0x4E, 0x47].is_prefix_of(data) {
        "png"@
    } else if gif87().is_prefix_of(data) || gif89().is_prefix_of(data) {
        "gif"@
    } else if seq![0x42u8, 0x4D].is_prefix_of(data) {
        "bmp"@
    } else if data.len() >= 12 && seq![0x52u8, 0x49, 0x46, 0x46].is_prefix_of(data)
        && data.subrange(8, 12) == seq![0x57u8, 0x45, 0x42, 0x50] {
        "webp"@
    } else {
        "jpg"@
    }
}

/// `GIF87a`.
pub open spec fn gif87() -> Seq<u8> {
    seq![0x47u8, 0x49, 0x46, 0x38, 0x37, 0x61]
}

/// `GIF89a`.
pub open spec fn gif89() -> Seq<u8> {
    seq![0x47u8, 0x49, 0x46, 0x38, 0x39, 0x61]
}

/// Whether `data` starts with `prefix`.
pub fn starts_with_bytes(data: &[u8], prefix: &[u8]) -> (r: bool)
    ensures
        r == prefix@.is_prefix_of(data@),
{
    if data.len() < prefix.len() {
        return false;
    }
    let mut i: usize = 0;
    while i < prefix.len()
        invariant
            i <= prefix@.len() <= data@.len(),
            forall|k: int| 0 <= k < i ==> data@[k] == #[trigger] prefix@[k],
        decreases prefix.len() - i,
    {
        if data[i] != prefix[i] {
            assert(data@.subrange(0, prefix@.len() as int)[i as int] != prefix@[i as int]);
            return false;
        }
        i += 1;
    }
    assert(prefix@ =~= data@.subrange(0, prefix@.len() as int));
    true
}

/// The format that the first bytes of `data` show, as an extension.
pub fn image_ext_from_bytes(data: &[u8]) -> (ext: &'static str)
    ensures
        ext@ == picture_format(data@),
{
    if starts_with_bytes(data, &[0xFF, 0xD8, 0xFF]) {
        "jpg"
    } else if starts_with_bytes(data, &[0x89, 0x50, 0x4E, 0x47]) {
        "png"
    } else if starts_with_bytes(data, &[0x47, 0x49, 0x46, 0x38, 0x37, 0x61]) || starts_with_bytes(
        data,
        &[0x47, 0x49, 0x46, 0x38, 0x39, 0x61],
    ) {
        "gif"
    } else if starts_with_bytes(data, &[0x42, 0x4D]) {
        "bmp"
    } else if data.len() >= 12 && starts_with_bytes(data, &[0x52, 0x49, 0x46, 0x46]) && data[8]
        == 0x57 && data[9] == 0x45 && data[10] == 0x42 && data[11] == 0x50 {
        assert(data@.subrange(8, 12) =~= seq![0x57u8, 0x45, 0x42, 0x50]);
        "webp"
    } else {
        proof {
            let s = data@.subrange(8, 12);
            if data@.len() >= 12 && s == seq![0x57u8, 0x45, 0x42, 0x50] {
                assert(s[0] == data@[8] && s[1] == data@[9] && s[2] == data@[10] && s[3] == data@[11]);
            }
        }
        "jpg"
    }
}

/// The MIME type of a picture format.
pub open spec fn mime_of(format: Seq<char>) -> Seq<char> {
    if format == "png"@ {
        "image/png"@
    } else if format == "gif"@ {
        "image/gif"@
    } else if format == "bmp"@ {
        "image/bmp"@
    } else if format == "webp"@ {
        "image/webp"@
    } else {
        "image/jpeg"@
    }
}

/// The MIME type of a picture.
pub fn picture_mime(data: &[u8]) -> (mime: &'static str)
    ensures
        mime@ == mime_of(picture_format(data@)),
{
    let format = image_ext_from_bytes(data);
    if same_text(format, "png") {
        "image/png"
    } else if same_text(format, "gif") {
        "image/gif"
    } else if same_text(format, "bmp") {
        "image/bmp"
    } else if same_text(format, "webp") {
        "image/webp"
    } else {
        "image/jpeg"
    }
}

/// `Rar!` with the mark of version 4.
pub open spec fn rar4() -> Seq<u8> {
    seq![0x52u8, 0x61, 0x72, 0x21, 0x1A, 0x07, 0x00]
}

/// `Rar!` with the mark of version 5.
pub open spec fn rar5() -> Seq<u8> {
    seq![0x52u8, 0x61, 0x72, 0x21, 0x1A, 0x07, 0x01, 0x00]
}

/// The kind of an archive: by its first bytes, else by its extension.
pub open spec fn archive_type_of(head: Seq<u8>, extension: Seq<char>) -> Seq<char> {
    let ext = text::lowercase(extension);
    if head.len() >= 4 && seq![0x50u8, 0x4B].is_prefix_of(head) {
        "zip"@
    } else if rar4().is_prefix_of(head) || rar5().is_prefix_of(head) {
        "rar"@
    } else if ext == "cbz"@ || ext == "zip"@ {
        "zip"@
    } else if ext == "cbr"@ || ext == "rar"@ {
        "rar"@
    } else {
        "unknown"@
    }
}

/// The kind of an archive, from the bytes read at its start (up to eight, none
/// where it cannot be read) and its extension.
pub fn detect_archive_type(head: &[u8], extension: &str) -> (r: &'static str)
    ensures
        r@ == archive_type_of(head@, extension@),
{
    if head.len() >= 4 && starts_with_bytes(head, &[0x50, 0x4B]) {
        return "zip";
    }
    if starts_with_bytes(head, &[0x52, 0x61, 0x72, 0x21, 0x1A, 0x07, 0x00]) || starts_with_bytes(
        head,
        &[0x52, 0x61, 0x72, 0x21, 0x1A, 0x07, 0x01, 0x00],
    ) {
        return "rar";
    }
    let lower = extension.to_lowercase();
    let ext = lower.as_str();
    if same_text(ext, "cbz") || same_text(ext, "zip") {
        "zip"
    } else if same_text(ext, "cbr") || same_text(ext, "rar") {
        "rar"
    } else {
        "unknown"
    }
}

// ---------------------------------------------------------------------------
// Laws of formats
// ---------------------------------------------------------------------------


/// Whether bytes start with two others.
proof fn lemma_starts2(d: Seq<u8>, a: u8, b: u8)
    ensures
        seq![a, b].is_prefix_of(d) <==> d.len() >= 2 && d[0] == a && d[1] == b,
{
    if d.len() >= 2 {
        let p = d.subrange(0, 2);
        assert(p[0] == d[0] && p[1] == d[1]);
        if d[0] == a && d[1] == b {
            assert(seq![a, b] =~= p);
        }
    }
}

proof fn lemma_starts3(d: Seq<u8>, a: u8, b: u8, c: u8)
    ensures
        seq![a, b, c].is_prefix_of(d) <==> d.len() >= 3 && d[0] == a && d[1] == b && d[2] == c,
{
    if d.len() >= 3 {
        let p = d.subrange(0, 3);
        assert(p[0] == d[0] && p[1] == d[1] && p[2] == d[2]);
        if d[0] == a && d[1] == b && d[2] == c {
            assert(seq![a, b, c] =~= p);
        }
    }
}

proof fn lemma_starts4(d: Seq<u8>, a: u8, b: u8, c: u8, e: u8)
    ensures
        seq![a, b, c, e].is_prefix_of(d) <==> d.len() >= 4 && d[0] == a && d[1] == b && d[2] == c && d[3]
            == e,
{
    if d.len() >= 4 {
        let p = d.subrange(0, 4);
        assert(p[0] == d[0] && p[1] == d[1] && p[2] == d[2] && p[3] == d[3]);
        if d[0] == a && d[1] == b && d[2] == c && d[3] == e {
            assert(seq![a, b, c, e] =~= p);
        }
    }
}

proof fn lemma_starts_gif(d: Seq<u8>)
    ensures
        gif87().is_prefix_of(d) || gif89().is_prefix_of(d) <==> d.len() >= 6 && d[0] == 0x47 && d[1]
            == 0x49 && d[2] == 0x46 && d[3] == 0x38 && (d[4] == 0x37 || d[4] == 0x39) && d[5] == 0x61,
{
    if d.len() >= 6 {
        let p = d.subrange(0, 6);
        assert(p[0] == d[0] && p[1] == d[1] && p[2] == d[2] && p[3] == d[3] && p[4] == d[4] && p[5]
            == d[5]);
        if d[0] == 0x47 && d[1] == 0x49 && d[2] == 0x46 && d[3] == 0x38 && d[5] == 0x61 {
            if d[4] == 0x37 {
                assert(gif87() =~= p);
            }
            if d[4] == 0x39 {
                assert(gif89() =~= p);
            }
        }
    }
}

/// The format of a picture is told by its mark, and by nothing else: PNG, GIF, BMP
/// and WebP files are known by theirs, and all else counts as JPEG.
pub proof fn formats_are_told_by_their_marks(d: Seq<u8>)
    ensures
        picture_format(d) == "png"@ <==> d.len() >= 4 && d[0] == 0x89 && d[1] == 0x50 && d[2] == 0x4E
            && d[3] == 0x47,
        picture_format(d) == "gif"@ <==> d.len() >= 6 && d[0] == 0x47 && d[1] == 0x49 && d[2] == 0x46
            && d[3] == 0x38 && (d[4] == 0x37 || d[4] == 0x39) && d[5] == 0x61,
        picture_format(d) == "bmp"@ <==> d.len() >= 2 && d[0] == 0x42 && d[1] == 0x4D,
        picture_format(d) == "webp"@ <==> d.len() >= 12 && d[0] == 0x52 && d[1] == 0x49 && d[2] == 0x46
            && d[3] == 0x46 && d[8] == 0x57 && d[9] == 0x45 && d[10] == 0x42 && d[11] == 0x50,
        picture_format(d) == "png"@ || picture_format(d) == "gif"@ || picture_format(d) == "bmp"@
            || picture_format(d) == "webp"@ || picture_format(d) == "jpg"@,
{
    reveal_strlit("jpg");
    reveal_strlit("png");
    reveal_strlit("gif");
    reveal_strlit("bmp");
    reveal_strlit("webp");
    assert("jpg"@[0] == 'j' && "png"@[0] == 'p' && "gif"@[0] == 'g' && "bmp"@[0] == 'b' && "webp"@[0]
        == 'w');
    lemma_starts3(d, 0xFF, 0xD8, 0xFF);
    lemma_starts4(d, 0x89, 0x50, 0x4E, 0x47);
    lemma_starts_gif(d);
    lemma_starts2(d, 0x42, 0x4D);
    lemma_starts4(d, 0x52, 0x49, 0x46, 0x46);
    if d.len() >= 12 {
        let s = d.subrange(8, 12);
        assert(s[0] == d[8] && s[1] == d[9] && s[2] == d[10] && s[3] == d[11]);
        if d[8] == 0x57 && d[9] == 0x45 && d[10] == 0x42 && d[11] == 0x50 {
            assert(s =~= seq![0x57u8, 0x45, 0x42, 0x50]);
        }
    }
}

/// The MIME type of a picture names its format; that of JPEG is `jpeg`.
pub proof fn mime_types_name_the_format(d: Seq<u8>)
    ensures
        mime_of(picture_format(d)) == "image/"@ + (if picture_format(d) == "jpg"@ {
            "jpeg"@
        } else {
            picture_format(d)
        }),
{
    reveal_strlit("jpg");
    reveal_strlit("jpeg");
    reveal_strlit("png");
    reveal_strlit("gif");
    reveal_strlit("bmp");
    reveal_strlit("webp");
    reveal_strlit("image/");
    reveal_strlit("image/jpeg");
    reveal_strlit("image/png");
    reveal_strlit("image/gif");
    reveal_strlit("image/bmp");
    reveal_strlit("image/webp");
    assert("jpg"@[0] == 'j' && "png"@[0] == 'p' && "gif"@[0] == 'g' && "bmp"@[0] == 'b' && "webp"@[0]
        == 'w');
    formats_are_told_by_their_marks(d);
    assert("image/jpeg"@ =~= "image/"@ + "jpeg"@);
    assert("image/png"@ =~= "image/"@ + "png"@);
    assert("image/gif"@ =~= "image/"@ + "gif"@);
    assert("image/bmp"@ =~= "image/"@ + "bmp"@);
    assert("image/webp"@ =~= "image/"@ + "webp"@);
}

/// An archive is known by its mark whatever it is called; its extension counts only
/// where it has none, and then whatever its case.
pub proof fn archives_are_told_by_their_marks(head: Seq<u8>, extension: Seq<char>)
    ensures
        ({
            let kind = archive_type_of(head, extension);
            let lower = text::lowercase(extension);
            let zip = head.len() >= 4 && head[0] == 0x50 && head[1] == 0x4B;
            let rar = head.len() >= 7 && head[0] == 0x52 && head[1] == 0x61 && head[2] == 0x72 && head[3]
                == 0x21 && head[4] == 0x1A && head[5] == 0x07 && (head[6] == 0x00 || (head.len() >= 8
                && head[6] == 0x01 && head[7] == 0x00));
            &&& zip ==> kind == "zip"@
            &&& rar ==> kind == "rar"@
            &&& !zip && !rar ==> {
                &&& kind == "zip"@ <==> lower == "cbz"@ || lower == "zip"@
                &&& kind == "rar"@ <==> lower == "cbr"@ || lower == "rar"@
            }
            &&& kind == "zip"@ || kind == "rar"@ || kind == "unknown"@
        }),
{
    reveal_strlit("zip");
    reveal_strlit("rar");
    reveal_strlit("cbz");
    reveal_strlit("cbr");
    reveal_strlit("unknown");
    assert("zip"@[0] == 'z' && "rar"@[0] == 'r' && "unknown"@[0] == 'u' && "cbz"@[2] == 'z' && "cbr"@[2]
        == 'r' && "cbz"@[0] == 'c' && "cbr"@[0] == 'c');
    lemma_starts2(head, 0x50, 0x4B);
    if head.len() >= 7 {
        let p = head.subrange(0, 7);
        assert(p[0] == head[0] && p[1] == head[1] && p[2] == head[2] && p[3] == head[3] && p[4]
            == head[4] && p[5] == head[5] && p[6] == head[6]);
        if head[0] == 0x52 && head[1] == 0x61 && head[2] == 0x72 && head[3] == 0x21 && head[4] == 0x1A
            && head[5] == 0x07 && head[6] == 0x00 {
            assert(rar4() =~= p);
        }
    }
    if head.len() >= 8 {
        let p = head.subrange(0, 8);
        assert(p[0] == head[0] && p[1] == head[1] && p[2] == head[2] && p[3] == head[3] && p[4]
            == head[4] && p[5] == head[5] && p[6] == head[6] && p[7] == head[7]);
        if head[0] == 0x52 && head[1] == 0x61 && head[2] == 0x72 && head[3] == 0x21 && head[4] == 0x1A
            && head[5] == 0x07 && head[6] == 0x01 && head[7] == 0x00 {
            assert(rar5() =~= p);
        }
    }
}

} // verus!
