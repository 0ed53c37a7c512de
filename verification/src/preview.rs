//! What the previewer is told of a book.

use crate::archive;
use crate::bytes;
use crate::cache::{MobiCache, cbz_extension, get_or_extract};
use crate::cache;
use crate::mobi::extract_mobi_metadata;
use crate::mobi;
use crate::size::format_size;
use crate::size;
use crate::sniff::picture_mime;
use crate::sniff;
use crate::text::{join, join3};
use base64::Engine;
use vstd::prelude::*;

verus! {

/// A book in the previewer.
#[derive(Debug)]
pub struct MobiInfo {
    pub page_count: usize,
    pub file_size: String,
    pub title: String,
    pub author: String,
}

/// A page in the previewer.
#[derive(Debug)]
pub struct MobiPage {
    pub image: String,
    pub page: usize,
    pub page_count: usize,
}

// ---------------------------------------------------------------------------
// Pictures in words
// ---------------------------------------------------------------------------

/// The character for six bits.
pub open spec fn base64_char(v: int) -> char {
    if v < 26 {
        ('A' as int + v) as char
    } else if v < 52 {
        ('a' as int + (v - 26)) as char
    } else if v < 62 {
        ('0' as int + (v - 52)) as char
    } else if v == 62 {
        '+'
    } else {
        '/'
    }
}

/// The characters for three bytes, six bits each.
pub open spec fn base64_group(a: u8, b: u8, c: u8) -> Seq<char> {
    let v = a * 0x1_0000 + b * 0x100 + c;
    seq![
        base64_char(v / 0x4_0000),
        base64_char(v / 0x1000 % 64),
        base64_char(v / 64 % 64),
        base64_char(v % 64),
    ]
}

/// Bytes in the standard Base64 alphabet, filled up with `=`.
pub open spec fn base64_text(d: Seq<u8>) -> Seq<char>
    decreases d.len(),
{
    if d.len() == 0 {
        seq![]
    } else if d.len() == 1 {
        base64_group(d[0], 0, 0).take(2) + seq!['=', '=']
    } else if d.len() == 2 {
        base64_group(d[0], d[1], 0).take(3) + seq!['=']
    } else {
        base64_group(d[0], d[1], d[2]) + base64_text(d.skip(3))
    }
}

/// `Engine::encode` of the standard engine: Base64 with the alphabet that ends
/// in `+` and `/`, padded.
#[verifier::external_body]
fn encode_base64(d: &[u8]) -> (s: String)
    ensures
        s@ == base64_text(d@),
{
    base64::engine::general_purpose::STANDARD.encode(d)
}

/// A picture as a data URL.
pub open spec fn data_url(page: Seq<u8>) -> Seq<char> {
    "data:"@ + sniff::mime_of(sniff::picture_format(page)) + ";base64,"@ + base64_text(page)
}

/// A picture as a data URL.
pub fn picture_url(page: &[u8]) -> (s: String)
    ensures
        s@ == data_url(page@),
{
    let mut s = join3("data:", picture_mime(page), ";base64,");
    s.append(encode_base64(page).as_str());
    s
}

// ---------------------------------------------------------------------------
// Books and pages
// ---------------------------------------------------------------------------

/// The page that is shown for a number: the last one where it is too high.
pub open spec fn shown_page(page: usize, count: nat) -> int {
    if page < count {
        page as int
    } else {
        count - 1
    }
}

/// Whether `r` is the page of a book for a number.
pub open spec fn shows(
    pages: Result<Seq<Seq<u8>>, Seq<char>>,
    page: usize,
    r: Result<MobiPage, String>,
) -> bool {
    match pages {
        Err(e) => r is Err && r->Err_0@ == e,
        Ok(list) => if list.len() == 0 {
            r is Err && r->Err_0@ == "No images found"@
        } else {
            &&& r is Ok
            &&& r->Ok_0.page == shown_page(page, list.len())
            &&& r->Ok_0.page_count == list.len()
            &&& r->Ok_0.image@ == data_url(list[shown_page(page, list.len())])
        },
    }
}

/// The page of a book for a number.
pub fn show_page(pages: Result<Vec<Vec<u8>>, String>, page: usize) -> (r: Result<MobiPage, String>)
    ensures
        shows(archive::contents_view(pages), page, r),
{
    match pages {
        Err(e) => Err(e),
        Ok(list) => {
            if list.len() == 0 {
                return Err("No images found".to_owned());
            }
            let at: usize = if page < list.len() {
                page
            } else {
                list.len() - 1
            };
            Ok(
                MobiPage {
                    image: picture_url(list[at].as_slice()),
                    page: at,
                    page_count: list.len(),
                },
            )
        },
    }
}

/// The pages of a book: those that are kept, or else those of its file.
pub open spec fn pages_of(
    kept: Map<Seq<char>, Seq<Seq<u8>>>,
    path: Seq<char>,
    extension: Seq<char>,
    source: Result<Seq<u8>, Seq<char>>,
) -> Result<Seq<Seq<u8>>, Seq<char>> {
    if kept.contains_key(path) {
        Ok(kept[path])
    } else {
        cache::book_pages(extension, source)
    }
}

/// What becomes of the kept books when the pages of one are asked for.
pub open spec fn keeps(
    before: Map<Seq<char>, Seq<Seq<u8>>>,
    after: Map<Seq<char>, Seq<Seq<u8>>>,
    path: Seq<char>,
    pages: Result<Seq<Seq<u8>>, Seq<char>>,
) -> bool {
    if !before.contains_key(path) && pages is Ok {
        cache::stored(before, after, path, pages->Ok_0)
    } else {
        after == before
    }
}

/// The pages of a book stay the same while it is kept: asking again gives what
/// the first time gave, whatever became of the file.
pub proof fn kept_pages_are_given_again(
    before: Map<Seq<char>, Seq<Seq<u8>>>,
    after: Map<Seq<char>, Seq<Seq<u8>>>,
    path: Seq<char>,
    extension: Seq<char>,
    source: Result<Seq<u8>, Seq<char>>,
    later: Result<Seq<u8>, Seq<char>>,
)
    requires
        pages_of(before, path, extension, source) is Ok,
        keeps(before, after, path, pages_of(before, path, extension, source)),
    ensures
        pages_of(after, path, extension, later) == pages_of(before, path, extension, source),
{
    if !before.contains_key(path) {
        cache::stored_books_are_found(
            before,
            after,
            path,
            pages_of(before, path, extension, source)->Ok_0,
        );
    }
}

/// The page of the book at a path for a number; `source` is what reading its
/// file gave, and is looked at only where the book is not kept.
pub fn get_mobi_page(
    cache: &mut MobiCache,
    path: &str,
    extension: &str,
    page: usize,
    source: Result<&[u8], String>,
) -> (r: Result<MobiPage, String>)
    requires
        old(cache).valid(),
    ensures
        final(cache).valid(),
        shows(pages_of(old(cache)@, path@, extension@, cache::source_view(source)), page, r),
        keeps(
            old(cache)@,
            final(cache)@,
            path@,
            pages_of(old(cache)@, path@, extension@, cache::source_view(source)),
        ),
{
    let pages = get_or_extract(cache, path, extension, source);
    show_page(pages, page)
}

/// Whether `info` tells of a book with so many pages and bytes.
pub open spec fn tells(
    info: MobiInfo,
    pages: nat,
    size: nat,
    title: Seq<char>,
    author: Seq<char>,
) -> bool {
    &&& info.page_count == pages
    &&& info.file_size@ == size::size_text(size)
    &&& info.title@ == title
    &&& info.author@ == author
}

/// Whether `r` is what is told of a CBZ file: its title is its name. `length` is
/// its size, and `pages` are its pages.
pub open spec fn tells_of_cbz(
    length: Result<usize, Seq<char>>,
    pages: Result<Seq<Seq<u8>>, Seq<char>>,
    stem: Seq<char>,
    r: Result<MobiInfo, String>,
) -> bool {
    match (length, pages) {
        (Err(e), _) => r is Err && r->Err_0@ == "Cannot read: "@ + e,
        (Ok(_), Err(e)) => r is Err && r->Err_0@ == e,
        (Ok(size), Ok(list)) => r is Ok && tells(r->Ok_0, list.len(), size as nat, stem, seq![]),
    }
}

/// Whether `r` is what is told of a MOBI file: its title and author stand in it.
/// `source` is what reading it gave, and `pages` are its pages.
pub open spec fn tells_of_mobi(
    source: Result<Seq<u8>, Seq<char>>,
    pages: Result<Seq<Seq<u8>>, Seq<char>>,
    r: Result<MobiInfo, String>,
) -> bool {
    match (source, pages) {
        (Err(e), _) => r is Err && r->Err_0@ == "Cannot read MOBI: "@ + e,
        (Ok(_), Err(e)) => r is Err && r->Err_0@ == e,
        (Ok(data), Ok(list)) => r is Ok && tells(
            r->Ok_0,
            list.len(),
            data.len(),
            mobi::book_title(data),
            mobi::book_author(data),
        ),
    }
}

/// The size of a file, as plain values.
pub open spec fn length_view(length: Result<usize, String>) -> Result<usize, Seq<char>> {
    match length {
        Ok(n) => Ok(n),
        Err(e) => Err(e@),
    }
}

fn tell_of_cbz(size: usize, pages: Result<Vec<Vec<u8>>, String>, stem: &str) -> (r: Result<
    MobiInfo,
    String,
>)
    ensures
        tells_of_cbz(Ok(size), archive::contents_view(pages), stem@, r),
{
    match pages {
        Err(e) => Err(e),
        Ok(list) => {
            assert(bytes::contents(list@).len() == list@.len());
            let author = String::new();
            assert(author@ =~= seq![]);
            Ok(
                MobiInfo {
                    page_count: list.len(),
                    file_size: format_size(size),
                    title: stem.to_owned(),
                    author,
                },
            )
        },
    }
}

/// What the previewer is told of the book at a path. `stem` is the name of its
/// file without the extension, `length` its size and `source` what reading it
/// gave. Of a CBZ file `source` is looked at only where the book is not kept; of
/// another `length` and `stem` are not looked at. A file that cannot be looked
/// at leaves the kept books as they are.
pub fn get_mobi_info(
    cache: &mut MobiCache,
    path: &str,
    extension: &str,
    stem: &str,
    length: Result<usize, String>,
    source: Result<&[u8], String>,
) -> (r: Result<MobiInfo, String>)
    requires
        old(cache).valid(),
    ensures
        final(cache).valid(),
        ({
            let pages = pages_of(old(cache)@, path@, extension@, cache::source_view(source));
            let seen = if cache::is_cbz_extension(extension@) {
                length is Ok
            } else {
                source is Ok
            };
            &&& cache::is_cbz_extension(extension@) ==> tells_of_cbz(length_view(length), pages, stem@, r)
            &&& !cache::is_cbz_extension(extension@) ==> tells_of_mobi(cache::source_view(source), pages, r)
            &&& seen ==> keeps(old(cache)@, final(cache)@, path@, pages)
            &&& !seen ==> final(cache)@ == old(cache)@
        }),
{
    if cbz_extension(extension) {
        match length {
            Err(e) => Err(join("Cannot read: ", e.as_str())),
            Ok(n) => tell_of_cbz(n, get_or_extract(cache, path, extension, source), stem),
        }
    } else {
        match source {
            Err(e) => Err(join("Cannot read MOBI: ", e.as_str())),
            Ok(data) => {
                let (title, author) = extract_mobi_metadata(data);
                match get_or_extract(cache, path, extension, Ok(data)) {
                    Err(e) => Err(e),
                    Ok(pages) => {
                        assert(bytes::contents(pages@).len() == pages@.len());
                        Ok(
                            MobiInfo {
                                page_count: pages.len(),
                                file_size: format_size(data.len()),
                                title,
                                author,
                            },
                        )
                    },
                }
            },
        }
    }
}

// ---------------------------------------------------------------------------
// Laws of the previewer
// ---------------------------------------------------------------------------


/// The page that is shown is the one that is asked for: its number and its picture are
/// those of that page. Behind the last page the last one is shown.
pub proof fn the_page_that_is_asked_for_is_shown(
    pages: Result<Seq<Seq<u8>>, Seq<char>>,
    page: usize,
    r: Result<MobiPage, String>,
)
    requires
        shows(pages, page, r),
    ensures
        pages is Ok && page < pages->Ok_0.len() ==> {
            &&& r is Ok
            &&& r->Ok_0.page == page
            &&& r->Ok_0.page_count == pages->Ok_0.len()
            &&& r->Ok_0.image@ == data_url(pages->Ok_0[page as int])
        },
        pages is Ok && page >= pages->Ok_0.len() > 0 ==> {
            &&& r is Ok
            &&& r->Ok_0.page + 1 == pages->Ok_0.len()
            &&& r->Ok_0.page_count == pages->Ok_0.len()
            &&& r->Ok_0.image@ == data_url(pages->Ok_0.last())
        },
        pages is Ok && pages->Ok_0.len() == 0 ==> r is Err && r->Err_0@ == "No images found"@,
        pages is Err ==> r is Err && r->Err_0@ == pages->Err_0,
{
}

/// Every page of a book can be seen, each under its own number.
pub proof fn every_page_can_be_seen(
    pages: Seq<Seq<u8>>,
    i: usize,
    j: usize,
    r: Result<MobiPage, String>,
    s: Result<MobiPage, String>,
)
    requires
        i < pages.len(),
        j < pages.len(),
        i != j,
        shows(Ok(pages), i, r),
        shows(Ok(pages), j, s),
    ensures
        r is Ok && s is Ok && r->Ok_0.page != s->Ok_0.page,
        r->Ok_0.image@ == data_url(pages[i as int]),
        s->Ok_0.image@ == data_url(pages[j as int]),
{
}

/// The data URL of a picture names its format and holds all its bytes in Base64.
pub proof fn data_urls_hold_the_picture(page: Seq<u8>)
    ensures
        data_url(page) == "data:image/"@ + (if sniff::picture_format(page) == "jpg"@ {
            "jpeg"@
        } else {
            sniff::picture_format(page)
        }) + ";base64,"@ + base64_text(page),
{
    reveal_strlit("data:");
    reveal_strlit("image/");
    reveal_strlit("data:image/");
    sniff::mime_types_name_the_format(page);
    let format = if sniff::picture_format(page) == "jpg"@ {
        "jpeg"@
    } else {
        sniff::picture_format(page)
    };
    assert("data:"@ + ("image/"@ + format) =~= "data:image/"@ + format);
}

/// A book that is kept is shown as it is kept, whatever became of its file; another is
/// read from its file, and kept where that goes well. Nothing else is forgotten but to
/// make room.
pub proof fn kept_books_need_no_file(
    before: Map<Seq<char>, Seq<Seq<u8>>>,
    after: Map<Seq<char>, Seq<Seq<u8>>>,
    path: Seq<char>,
    extension: Seq<char>,
    source: Result<Seq<u8>, Seq<char>>,
)
    requires
        keeps(before, after, path, pages_of(before, path, extension, source)),
    ensures
        before.contains_key(path) ==> pages_of(before, path, extension, source) == Ok::<
            Seq<Seq<u8>>,
            Seq<char>,
        >(before[path]) && after == before,
        !before.contains_key(path) ==> pages_of(before, path, extension, source) == cache::book_pages(
            extension,
            source,
        ),
        !before.contains_key(path) && cache::book_pages(extension, source) is Err ==> after == before,
        !before.contains_key(path) && cache::book_pages(extension, source) is Ok
            ==> after.contains_key(path) && after[path] == cache::book_pages(extension, source)->Ok_0,
{
}

/// What is told of a book: how many pages it has, how large its file is, and its title
/// and author, which a CBZ file has from its name.
pub proof fn books_are_told_of(
    length: Result<usize, Seq<char>>,
    source: Result<Seq<u8>, Seq<char>>,
    pages: Result<Seq<Seq<u8>>, Seq<char>>,
    stem: Seq<char>,
    r: Result<MobiInfo, String>,
    s: Result<MobiInfo, String>,
)
    requires
        tells_of_cbz(length, pages, stem, r),
        tells_of_mobi(source, pages, s),
    ensures
        r is Ok <==> length is Ok && pages is Ok,
        r is Ok ==> {
            &&& r->Ok_0.page_count == pages->Ok_0.len()
            &&& r->Ok_0.file_size@ == size::size_text(length->Ok_0 as nat)
            &&& r->Ok_0.title@ == stem
            &&& r->Ok_0.author@.len() == 0
        },
        s is Ok <==> source is Ok && pages is Ok,
        s is Ok ==> {
            &&& s->Ok_0.page_count == pages->Ok_0.len()
            &&& s->Ok_0.file_size@ == size::size_text(source->Ok_0.len())
            &&& s->Ok_0.title@ == mobi::book_title(source->Ok_0)
            &&& s->Ok_0.author@ == mobi::book_author(source->Ok_0)
        },
{
}

} // verus!
